//! Recommendation requests: which requests are accepted, which dishes they
//! admit, and the bookkeeping of drawing without replacement.
use vstd::prelude::*;

use crate::catalog::{answers_to, catalog_valid, first_answer, Catalog};
use crate::model::{Dish, Error, Options, Recommendation, Response, Strategy};
use crate::order::{less, precedes};
use crate::text::{has, has_label, intersects, is_label, nonempty, shares_label};

verus! {

/// Whether every label of the list carries something besides whitespace.
pub open spec fn labels_given(v: Seq<String>) -> bool {
    forall|i: int| 0 <= i < v.len() ==> is_label(#[trigger] v[i]@)
}

/// Whether an optional label, if present, carries something besides whitespace.
pub open spec fn label_given(v: Option<String>) -> bool {
    v matches Some(s) ==> is_label(s@)
}

/// Whether the request asks for a cook mode, which an ingredient budget needs.
pub open spec fn cooking(o: Options) -> bool {
    o.mode matches Some(m) && m@ == "cook"@
}

/// The message for the first check the request fails, if any: a count outside
/// 1..=100, a budget without the cook mode, then an empty filter label.
pub open spec fn request_fault(o: Options) -> Option<Seq<char>> {
    if !(1 <= o.count <= 100) {
        Some("count must be in 1..=100"@)
    } else if o.budget_max_fen is Some && !cooking(o) {
        Some("budget_max_fen is ingredient cost; mode must be cook"@)
    } else if !(labels_given(o.categories@) && labels_given(o.regions@) && labels_given(
        o.exclude_ingredients@,
    ) && labels_given(o.required_tags@) && labels_given(o.preferences@) && labels_given(
        o.recent@,
    ) && label_given(o.meal) && label_given(o.mode) && label_given(o.theme)) {
        Some("empty filter label"@)
    } else {
        None
    }
}

fn labels_given_exec(v: &Vec<String>) -> (b: bool)
    ensures
        b == labels_given(v@),
{
    let mut i: usize = 0;
    while i < v.len()
        invariant
            i <= v@.len(),
            forall|j: int| 0 <= j < i ==> is_label(#[trigger] v@[j]@),
        decreases v@.len() - i,
    {
        if !nonempty(v[i].as_str()) {
            return false;
        }
        i = i + 1;
    }
    true
}

fn label_given_exec(v: &Option<String>) -> (b: bool)
    ensures
        b == label_given(*v),
{
    match v {
        Some(s) => nonempty(s.as_str()),
        None => true,
    }
}

/// Checks a request before any catalog is read: the count must lie in
/// 1..=100, an ingredient budget needs the cook mode, and no filter label may
/// be empty. The first failing check gives the error.
pub fn check_request(o: &Options) -> (r: Result<(), Error>)
    ensures
        r is Ok <==> request_fault(*o) is None,
        r matches Err(e) ==> request_fault(*o) == Some(e.0@),
{
    if !(1 <= o.count && o.count <= 100) {
        return Err(Error(String::from_str("count must be in 1..=100")));
    }
    if o.budget_max_fen.is_some() {
        let cook = String::from_str("cook");
        let is_cook = match &o.mode {
            Some(m) => *m == cook,
            None => false,
        };
        if !is_cook {
            return Err(Error(String::from_str("budget_max_fen is ingredient cost; mode must be cook")));
        }
    }
    if !(labels_given_exec(&o.categories) && labels_given_exec(&o.regions) && labels_given_exec(
        &o.exclude_ingredients,
    ) && labels_given_exec(&o.required_tags) && labels_given_exec(&o.preferences)
        && labels_given_exec(&o.recent) && label_given_exec(&o.meal) && label_given_exec(&o.mode)
        && label_given_exec(&o.theme)) {
        return Err(Error(String::from_str("empty filter label")));
    }
    Ok(())
}

/// Whether a dish of the history (positions in the catalog) has this id.
pub open spec fn recalls(c: Catalog, history: Seq<usize>, id: Seq<char>) -> bool {
    exists|j: int| 0 <= j < history.len() && c.dishes@[#[trigger] history[j] as int].id@ == id
}

/// The recent dishes, most recent first: each entry of `recent` that answers
/// to a dish adds that dish, unless a dish with its id is already there.
pub open spec fn history_of(c: Catalog, recent: Seq<String>) -> Seq<usize>
    decreases recent.len(),
{
    if recent.len() == 0 {
        seq![]
    } else {
        let h = history_of(c, recent.drop_last());
        match first_answer(c, recent.last()@) {
            Some(i) => if recalls(c, h, c.dishes@[i].id@) {
                h
            } else {
                h.push(i as usize)
            },
            None => h,
        }
    }
}

/// One warning for each entry of `recent` that answers to no dish, in order.
pub open spec fn unknown_recent(c: Catalog, recent: Seq<String>) -> Seq<Seq<char>>
    decreases recent.len(),
{
    if recent.len() == 0 {
        seq![]
    } else {
        let w = unknown_recent(c, recent.drop_last());
        if first_answer(c, recent.last()@) is None {
            w.push("UNKNOWN_RECENT:"@ + recent.last()@)
        } else {
            w
        }
    }
}

/// The warnings of a request: its unknown recent entries, then a note when
/// ingredients are excluded by the known ingredients alone.
pub open spec fn warnings_of(o: Options, c: Catalog) -> Seq<Seq<char>> {
    let w = unknown_recent(c, o.recent@);
    if o.exclude_ingredients@.len() > 0 && !o.require_complete_ingredients {
        w.push("INGREDIENT_EXCLUSION_USES_KNOWN_INGREDIENTS_ONLY"@)
    } else {
        w
    }
}

/// The hard filters: a dish is a candidate only if it meets every one of them.
pub open spec fn admits(o: Options, c: Catalog, history: Seq<usize>, d: Dish) -> bool {
    &&& o.categories@.len() == 0 || has_label(o.categories@, d.category@)
    &&& o.regions@.len() == 0 || shares_label(o.regions@, d.regions@)
    &&& o.meal matches Some(v) ==> has_label(d.meals@, v@)
    &&& o.mode matches Some(v) ==> has_label(d.modes@, v@)
    &&& o.theme matches Some(v) ==> has_label(d.themes@, v@)
    &&& o.max_minutes matches Some(v) ==> (d.minutes_max matches Some(m) && m <= v)
    &&& o.budget_max_fen matches Some(v) ==> (d.cost_max_fen matches Some(m) && m <= v)
    &&& forall|i: int|
        0 <= i < o.required_tags@.len() ==> has_label(d.tags@, #[trigger] o.required_tags@[i]@)
    &&& !shares_label(o.exclude_ingredients@, d.ingredients@)
    &&& o.exclude_ingredients@.len() == 0 || !o.require_complete_ingredients
        || d.ingredients_complete
    &&& !o.exclude_recent || !recalls(c, history, d.id@)
}

/// How many of the first `k` dishes of the catalog pass the hard filters.
pub open spec fn count_admitted(o: Options, c: Catalog, history: Seq<usize>, k: int) -> nat
    decreases k,
{
    if k <= 0 {
        0
    } else if admits(o, c, history, c.dishes@[k - 1]) {
        count_admitted(o, c, history, k - 1) + 1
    } else {
        count_admitted(o, c, history, k - 1)
    }
}

/// Positions into the catalog, ordered strictly by dish id.
pub open spec fn sorted_by_id(c: Catalog, s: Seq<usize>) -> bool {
    forall|i: int, j: int|
        0 <= i < j < s.len() ==> precedes(
            c.dishes@[#[trigger] s[i] as int].id@,
            c.dishes@[#[trigger] s[j] as int].id@,
        )
}

fn first_answer_exec(c: &Catalog, query: &String) -> (r: Option<usize>)
    ensures
        match r {
            Some(i) => first_answer(*c, query@) == Some(i as int) && i < c.dishes@.len(),
            None => first_answer(*c, query@) is None,
        },
{
    c.resolve_index(query.as_str())
}

fn recalls_exec(c: &Catalog, history: &Vec<usize>, id: &String) -> (b: bool)
    requires
        forall|j: int| 0 <= j < history@.len() ==> #[trigger] history@[j] < c.dishes@.len(),
    ensures
        b == recalls(*c, history@, id@),
{
    let mut j: usize = 0;
    while j < history.len()
        invariant
            j <= history@.len(),
            forall|m: int| 0 <= m < history@.len() ==> #[trigger] history@[m] < c.dishes@.len(),
            forall|m: int| 0 <= m < j ==> c.dishes@[#[trigger] history@[m] as int].id@ != id@,
        decreases history@.len() - j,
    {
        if c.dishes[history[j]].id == *id {
            return true;
        }
        j = j + 1;
    }
    false
}

/// The views of a list of strings.
pub open spec fn texts(v: Seq<String>) -> Seq<Seq<char>> {
    v.map_values(|s: String| s@)
}

/// Resolves the recent entries, in order, into the history of dishes and the
/// warnings for the entries that answer to no dish.
fn recall(o: &Options, c: &Catalog) -> (r: (Vec<usize>, Vec<String>))
    ensures
        r.0@ == history_of(*c, o.recent@),
        texts(r.1@) == unknown_recent(*c, o.recent@),
        forall|j: int| 0 <= j < r.0@.len() ==> #[trigger] r.0@[j] < c.dishes@.len(),
{
    let mut history: Vec<usize> = Vec::new();
    let mut warnings: Vec<String> = Vec::new();
    let mut i: usize = 0;
    while i < o.recent.len()
        invariant
            i <= o.recent@.len(),
            history@ == history_of(*c, o.recent@.take(i as int)),
            texts(warnings@) == unknown_recent(*c, o.recent@.take(i as int)),
            forall|j: int| 0 <= j < history@.len() ==> #[trigger] history@[j] < c.dishes@.len(),
        decreases o.recent@.len() - i,
    {
        let q = &o.recent[i];
        let ghost prefix = o.recent@.take(i + 1);
        proof {
            assert(prefix.drop_last() =~= o.recent@.take(i as int));
            assert(prefix.last() == *q);
        }
        match first_answer_exec(c, q) {
            Some(k) => {
                if !recalls_exec(c, &history, &c.dishes[k].id) {
                    history.push(k);
                }
                assert(texts(warnings@) == unknown_recent(*c, prefix));
            },
            None => {
                let ghost before = warnings@;
                let mut w = String::from_str("UNKNOWN_RECENT:");
                w.append(q.as_str());
                warnings.push(w);
                assert(texts(warnings@) =~= texts(before).push("UNKNOWN_RECENT:"@ + q@));
            },
        }
        i = i + 1;
    }
    assert(o.recent@.take(i as int) =~= o.recent@);
    (history, warnings)
}

/// Whether dish `k` passes the hard filters of the request.
fn admits_exec(o: &Options, c: &Catalog, history: &Vec<usize>, k: usize) -> (b: bool)
    requires
        k < c.dishes@.len(),
        forall|j: int| 0 <= j < history@.len() ==> #[trigger] history@[j] < c.dishes@.len(),
    ensures
        b == admits(*o, *c, history@, c.dishes@[k as int]),
{
    let d = &c.dishes[k];
    if !(o.categories.len() == 0 || has(o.categories.as_slice(), d.category.as_str())) {
        return false;
    }
    if !(o.regions.len() == 0 || intersects(o.regions.as_slice(), d.regions.as_slice())) {
        return false;
    }
    match &o.meal {
        Some(v) => if !(has(d.meals.as_slice(), v.as_str())) {
            return false;
        },
        None => {},
    }
    match &o.mode {
        Some(v) => if !(has(d.modes.as_slice(), v.as_str())) {
            return false;
        },
        None => {},
    }
    match &o.theme {
        Some(v) => if !(has(d.themes.as_slice(), v.as_str())) {
            return false;
        },
        None => {},
    }
    match o.max_minutes {
        Some(v) => match d.minutes_max {
            Some(m) => if m > v {
                return false;
            },
            None => {
                return false;
            },
        },
        None => {},
    }
    match o.budget_max_fen {
        Some(v) => match d.cost_max_fen {
            Some(m) => if m > v {
                return false;
            },
            None => {
                return false;
            },
        },
        None => {},
    }
    let mut t: usize = 0;
    while t < o.required_tags.len()
        invariant
            t <= o.required_tags@.len(),
            d == c.dishes@[k as int],
            forall|i: int| 0 <= i < t ==> has_label(d.tags@, #[trigger] o.required_tags@[i]@),
        decreases o.required_tags@.len() - t,
    {
        if !(has(d.tags.as_slice(), o.required_tags[t].as_str())) {
            return false;
        }
        t = t + 1;
    }
    if intersects(o.exclude_ingredients.as_slice(), d.ingredients.as_slice()) {
        return false;
    }
    if !(o.exclude_ingredients.len() == 0 || !o.require_complete_ingredients
        || d.ingredients_complete) {
        return false;
    }
    !(o.exclude_recent && recalls_exec(c, history, &d.id))
}

/// Whether the dishes of the catalog have pairwise distinct ids.
pub open spec fn ids_distinct(c: Catalog) -> bool {
    forall|i: int, j: int|
        0 <= i < j < c.dishes@.len() ==> (#[trigger] c.dishes@[i]).id@ != (#[trigger] c.dishes@[j]).id@
}

/// A valid catalog has distinct ids.
pub proof fn lemma_valid_ids_distinct(c: Catalog)
    requires
        catalog_valid(c),
    ensures
        ids_distinct(c),
{
    assert forall|i: int, j: int| 0 <= i < j < c.dishes@.len() implies (#[trigger] c.dishes@[i]).id@
        != (#[trigger] c.dishes@[j]).id@ by {
        assert(crate::catalog::dish_ok(c, j));
    }
}

/// The dishes that pass the hard filters, as positions in the catalog
/// ordered by id.
fn select(o: &Options, c: &Catalog, history: &Vec<usize>) -> (r: Vec<usize>)
    requires
        ids_distinct(*c),
        forall|j: int| 0 <= j < history@.len() ==> #[trigger] history@[j] < c.dishes@.len(),
    ensures
        sorted_by_id(*c, r@),
        forall|j: int|
            0 <= j < r@.len() ==> #[trigger] r@[j] < c.dishes@.len() && admits(
                *o,
                *c,
                history@,
                c.dishes@[r@[j] as int],
            ),
        forall|k: int|
            0 <= k < c.dishes@.len() && admits(*o, *c, history@, #[trigger] c.dishes@[k])
                ==> r@.contains(k as usize),
        r@.len() == count_admitted(*o, *c, history@, c.dishes@.len() as int),
{
    let mut keys: Vec<Vec<char>> = Vec::new();
    let mut k: usize = 0;
    while k < c.dishes.len()
        invariant
            k <= c.dishes@.len(),
            keys@.len() == k,
            forall|j: int| 0 <= j < k ==> (#[trigger] keys@[j])@ == c.dishes@[j].id@,
        decreases c.dishes@.len() - k,
    {
        keys.push(crate::order::chars_of(c.dishes[k].id.as_str()));
        k = k + 1;
    }
    let mut r: Vec<usize> = Vec::new();
    let mut k: usize = 0;
    while k < c.dishes.len()
        invariant
            ids_distinct(*c),
            forall|j: int| 0 <= j < history@.len() ==> #[trigger] history@[j] < c.dishes@.len(),
            k <= c.dishes@.len(),
            keys@.len() == c.dishes@.len(),
            forall|j: int| 0 <= j < keys@.len() ==> (#[trigger] keys@[j])@ == c.dishes@[j].id@,
            sorted_by_id(*c, r@),
            forall|j: int|
                0 <= j < r@.len() ==> #[trigger] r@[j] < k && admits(
                    *o,
                    *c,
                    history@,
                    c.dishes@[r@[j] as int],
                ),
            forall|m: int|
                0 <= m < k && admits(*o, *c, history@, #[trigger] c.dishes@[m]) ==> r@.contains(
                    m as usize,
                ),
            r@.len() == count_admitted(*o, *c, history@, k as int),
        decreases c.dishes@.len() - k,
    {
        if admits_exec(o, c, history, k) {
            let mut p: usize = 0;
            while p < r.len() && !less(&keys[k], &keys[r[p]])
                invariant
                    ids_distinct(*c),
                    k < c.dishes@.len(),
                    keys@.len() == c.dishes@.len(),
                    forall|j: int| 0 <= j < keys@.len() ==> (#[trigger] keys@[j])@ == c.dishes@[j].id@,
                    forall|j: int| 0 <= j < r@.len() ==> #[trigger] r@[j] < k,
                    p <= r@.len(),
                    forall|q: int|
                        0 <= q < p ==> precedes(
                            c.dishes@[#[trigger] r@[q] as int].id@,
                            c.dishes@[k as int].id@,
                        ),
                decreases r@.len() - p,
            {
                proof {
                    let a = c.dishes@[r@[p as int] as int].id@;
                    let b = c.dishes@[k as int].id@;
                    assert(a != b);
                    crate::order::lemma_precedes_total(a, b);
                }
                p = p + 1;
            }
            let ghost old_r = r@;
            proof {
                if p < old_r.len() {
                    assert forall|q: int| p <= q < old_r.len() implies precedes(
                        c.dishes@[k as int].id@,
                        c.dishes@[#[trigger] old_r[q] as int].id@,
                    ) by {
                        if q > p {
                            crate::order::lemma_precedes_transitive(
                                c.dishes@[k as int].id@,
                                c.dishes@[old_r[p as int] as int].id@,
                                c.dishes@[old_r[q] as int].id@,
                            );
                        }
                    }
                }
            }
            r.insert(p, k);
            proof {
                assert(r@ =~= old_r.insert(p as int, k));
                assert forall|i: int, j: int| 0 <= i < j < r@.len() implies precedes(
                    c.dishes@[#[trigger] r@[i] as int].id@,
                    c.dishes@[#[trigger] r@[j] as int].id@,
                ) by {
                    if j < p {
                        assert(r@[i] == old_r[i] && r@[j] == old_r[j]);
                    } else if j == p {
                        assert(r@[i] == old_r[i]);
                    } else if i < p {
                        assert(r@[i] == old_r[i] && r@[j] == old_r[j - 1]);
                        crate::order::lemma_precedes_transitive(
                            c.dishes@[old_r[i] as int].id@,
                            c.dishes@[k as int].id@,
                            c.dishes@[old_r[j - 1] as int].id@,
                        );
                    } else if i == p {
                        assert(r@[j] == old_r[j - 1]);
                    } else {
                        assert(r@[i] == old_r[i - 1] && r@[j] == old_r[j - 1]);
                    }
                }
                assert forall|m: int|
                    0 <= m < k + 1 && admits(*o, *c, history@, #[trigger] c.dishes@[m])
                        implies r@.contains(m as usize) by {
                    if m < k {
                        let q = choose|q: int| 0 <= q < old_r.len() && old_r[q] == m as usize;
                        if q < p {
                            assert(r@[q] == old_r[q]);
                        } else {
                            assert(r@[q + 1] == old_r[q]);
                        }
                    } else {
                        assert(r@[p as int] == k);
                    }
                }
                assert forall|j: int| 0 <= j < r@.len() implies #[trigger] r@[j] < k + 1 && admits(
                    *o,
                    *c,
                    history@,
                    c.dishes@[r@[j] as int],
                ) by {
                    if j < p {
                        assert(r@[j] == old_r[j]);
                    } else if j > p {
                        assert(r@[j] == old_r[j - 1]);
                    }
                }
            }
        } else {
            proof {
                assert forall|m: int|
                    0 <= m < k + 1 && admits(*o, *c, history@, #[trigger] c.dishes@[m])
                        implies r@.contains(m as usize) by {
                }
            }
        }
        k = k + 1;
    }
    r
}

/// Whether one of the request's preferences is among the dish's tags or
/// ingredients, after normalisation.
pub open spec fn meets_preference(o: Options, d: Dish) -> bool {
    exists|i: int|
        0 <= i < o.preferences@.len() && (has_label(d.tags@, #[trigger] o.preferences@[i]@)
            || has_label(d.ingredients@, o.preferences@[i]@))
}

/// The rule-based reasons given for a recommended dish: it met the hard
/// filters; it matched a preference (unless drawn uniformly); and it is not
/// one of the recent dishes, when there are any.
pub open spec fn reasons_for(o: Options, c: Catalog, history: Seq<usize>, d: Dish) -> Seq<Seq<char>> {
    let r = seq!["HARD_FILTERS_SATISFIED"@];
    let r = if o.strategy != Strategy::Uniform && meets_preference(o, d) {
        r.push("MATCH_PREFERENCE"@)
    } else {
        r
    };
    if history.len() > 0 && !recalls(c, history, d.id@) {
        r.push("NOT_IN_RECENT"@)
    } else {
        r
    }
}

/// Whether two dishes hold the same data.
pub open spec fn same_dish(a: Dish, b: Dish) -> bool {
    &&& a.id == b.id
    &&& a.name == b.name
    &&& a.aliases@ == b.aliases@
    &&& a.category == b.category
    &&& a.regions@ == b.regions@
    &&& a.tags@ == b.tags@
    &&& a.ingredients@ == b.ingredients@
    &&& a.ingredients_complete == b.ingredients_complete
    &&& a.meals@ == b.meals@
    &&& a.modes@ == b.modes@
    &&& a.themes@ == b.themes@
    &&& a.minutes_max == b.minutes_max
    &&& a.cost_max_fen == b.cost_max_fen
    &&& a.familiarity_bits == b.familiarity_bits
    &&& a.sources@ == b.sources@
}

fn copy_labels(v: &Vec<String>) -> (r: Vec<String>)
    ensures
        r@ == v@,
{
    let r = v.clone();
    assert(r@ =~= v@);
    r
}

/// A copy of the dish.
pub fn copy_dish(d: &Dish) -> (r: Dish)
    ensures
        same_dish(r, *d),
{
    Dish {
        id: d.id.clone(),
        name: d.name.clone(),
        aliases: copy_labels(&d.aliases),
        category: d.category.clone(),
        regions: copy_labels(&d.regions),
        tags: copy_labels(&d.tags),
        ingredients: copy_labels(&d.ingredients),
        ingredients_complete: d.ingredients_complete,
        meals: copy_labels(&d.meals),
        modes: copy_labels(&d.modes),
        themes: copy_labels(&d.themes),
        minutes_max: d.minutes_max,
        cost_max_fen: d.cost_max_fen,
        familiarity_bits: d.familiarity_bits,
        sources: copy_labels(&d.sources),
    }
}

fn meets_preference_exec(o: &Options, d: &Dish) -> (b: bool)
    ensures
        b == meets_preference(*o, *d),
{
    let mut i: usize = 0;
    while i < o.preferences.len()
        invariant
            i <= o.preferences@.len(),
            forall|j: int|
                0 <= j < i ==> !(has_label(d.tags@, #[trigger] o.preferences@[j]@) || has_label(
                    d.ingredients@,
                    o.preferences@[j]@,
                )),
        decreases o.preferences@.len() - i,
    {
        let p = o.preferences[i].as_str();
        if has(d.tags.as_slice(), p) || has(d.ingredients.as_slice(), p) {
            return true;
        }
        i = i + 1;
    }
    false
}

fn reasons_exec(o: &Options, c: &Catalog, history: &Vec<usize>, d: &Dish) -> (r: Vec<String>)
    requires
        forall|j: int| 0 <= j < history@.len() ==> #[trigger] history@[j] < c.dishes@.len(),
    ensures
        texts(r@) == reasons_for(*o, *c, history@, *d),
{
    let mut r: Vec<String> = Vec::new();
    r.push(String::from_str("HARD_FILTERS_SATISFIED"));
    let ghost first = texts(r@);
    assert(first =~= seq!["HARD_FILTERS_SATISFIED"@]);
    if o.strategy != Strategy::Uniform && meets_preference_exec(o, d) {
        r.push(String::from_str("MATCH_PREFERENCE"));
        assert(texts(r@) =~= first.push("MATCH_PREFERENCE"@));
    }
    let ghost second = texts(r@);
    if history.len() > 0 && !recalls_exec(c, history, &d.id) {
        r.push(String::from_str("NOT_IN_RECENT"));
        assert(texts(r@) =~= second.push("NOT_IN_RECENT"@));
    }
    r
}

/// How two dishes resemble each other, in the terms the weighting uses.
#[derive(Debug, Clone, Copy, PartialEq, Eq, Structural)]
pub struct Overlap {
    /// The two are the same dish (equal ids).
    pub same_dish: bool,
    /// Their categories are equal after normalisation.
    pub same_category: bool,
    /// They share an ingredient label.
    pub shared_ingredient: bool,
    /// They share a tag.
    pub shared_tag: bool,
}

/// How `a` resembles `b`.
pub fn overlap(a: &Dish, b: &Dish) -> (r: Overlap)
    ensures
        r.same_dish == (a.id@ == b.id@),
        r.same_category == (crate::text::normalized(a.category@) == crate::text::normalized(
            b.category@,
        )),
        r.shared_ingredient == shares_label(a.ingredients@, b.ingredients@),
        r.shared_tag == shares_label(a.tags@, b.tags@),
{
    Overlap {
        same_dish: a.id == b.id,
        same_category: crate::text::norm(a.category.as_str()) == crate::text::norm(
            b.category.as_str(),
        ),
        shared_ingredient: intersects(a.ingredients.as_slice(), b.ingredients.as_slice()),
        shared_tag: intersects(a.tags.as_slice(), b.tags.as_slice()),
    }
}

/// The distinct keys of the preferences, after normalisation.
pub open spec fn preference_keys(preferences: Seq<String>) -> Set<Seq<char>> {
    Set::new(
        |k: Seq<char>|
            exists|i: int|
                0 <= i < preferences.len() && crate::text::normalized(#[trigger] preferences[i]@)
                    == k,
    )
}

/// The preference keys that the dish's tags or ingredients hold.
pub open spec fn matched_keys(d: Dish, preferences: Seq<String>) -> Set<Seq<char>> {
    preference_keys(preferences).filter(
        |k: Seq<char>| has_label(d.tags@, k) || has_label(d.ingredients@, k),
    )
}

/// How many distinct preferences, after normalisation, the dish's tags or
/// ingredients hold.
pub fn preference_hits(d: &Dish, preferences: &Vec<String>) -> (n: usize)
    ensures
        n == matched_keys(*d, preferences@).len(),
{
    let mut keys: Vec<String> = Vec::new();
    let mut i: usize = 0;
    while i < preferences.len()
        invariant
            i <= preferences@.len(),
            texts(keys@).no_duplicates(),
            texts(keys@).to_set() == Set::new(
                |k: Seq<char>|
                    exists|j: int|
                        0 <= j < i && crate::text::normalized(#[trigger] preferences@[j]@) == k,
            ),
        decreases preferences@.len() - i,
    {
        let key = crate::text::norm(preferences[i].as_str());
        let ghost before = texts(keys@);
        if !crate::catalog::contains_key(&keys, &key) {
            keys.push(key);
            proof {
                assert(texts(keys@) =~= before.push(key@));
                assert forall|a: int, b: int|
                    0 <= a < b < texts(keys@).len() implies texts(keys@)[a] != texts(keys@)[b] by {
                    if b == before.len() {
                        assert(keys@[a]@ == before[a]);
                    }
                }
            }
        }
        proof {
            assert(texts(keys@).to_set() =~= Set::new(
                |k: Seq<char>|
                    exists|j: int|
                        0 <= j < i + 1 && crate::text::normalized(#[trigger] preferences@[j]@) == k,
            )) by {
                assert forall|k: Seq<char>| texts(keys@).to_set().contains(k) implies exists|j: int|
                    0 <= j < i + 1 && crate::text::normalized(#[trigger] preferences@[j]@) == k by {
                    let m = choose|m: int| 0 <= m < texts(keys@).len() && texts(keys@)[m] == k;
                    if m < before.len() {
                        assert(before.to_set().contains(k));
                    }
                }
                assert forall|k: Seq<char>|
                    (exists|j: int|
                        0 <= j < i + 1 && crate::text::normalized(#[trigger] preferences@[j]@) == k)
                        implies texts(keys@).to_set().contains(k) by {
                    let j = choose|j: int|
                        0 <= j < i + 1 && crate::text::normalized(#[trigger] preferences@[j]@) == k;
                    if j < i {
                        assert(before.to_set().contains(k));
                        let m = choose|m: int| 0 <= m < before.len() && before[m] == k;
                        assert(texts(keys@)[m] == k);
                    } else if !crate::catalog::listed(keys@, k) {
                        assert(texts(keys@)[texts(keys@).len() - 1] == k);
                    } else {
                        let m = choose|m: int| 0 <= m < keys@.len() && (#[trigger] keys@[m])@ == k;
                        assert(texts(keys@)[m] == k);
                    }
                }
            }
        }
        i = i + 1;
    }
    let ghost all = texts(keys@);
    assert(all.to_set() =~= preference_keys(preferences@));
    let mut n: usize = 0;
    let ghost mut matched: Seq<Seq<char>> = Seq::empty();
    let mut j: usize = 0;
    while j < keys.len()
        invariant
            j <= keys@.len(),
            all == texts(keys@),
            all.no_duplicates(),
            n == matched.len(),
            n <= j,
            matched.no_duplicates(),
            matched.to_set() == all.take(j as int).to_set().filter(
                |k: Seq<char>| has_label(d.tags@, k) || has_label(d.ingredients@, k),
            ),
            forall|m: int| 0 <= m < matched.len() ==> all.take(j as int).contains(#[trigger] matched[m]),
        decreases keys@.len() - j,
    {
        let k = &keys[j];
        let ghost prev = matched;
        if has(d.tags.as_slice(), k.as_str()) || has(d.ingredients.as_slice(), k.as_str()) {
            n = n + 1;
            proof {
                matched = matched.push(k@);
                assert forall|a: int, b: int| 0 <= a < b < matched.len() implies matched[a] != matched[b] by {
                    if b == prev.len() {
                        assert(all.take(j as int).contains(prev[a]));
                        let t = choose|t: int| 0 <= t < j && all.take(j as int)[t] == prev[a];
                        assert(all[t] == prev[a]);
                        assert(all[j as int] == k@);
                    }
                }
            }
        }
        proof {
            assert(all.take(j + 1) =~= all.take(j as int).push(all[j as int]));
            assert(all[j as int] == k@);
            let pred = |k: Seq<char>| has_label(d.tags@, k) || has_label(d.ingredients@, k);
            let small = all.take(j as int);
            let big = all.take(j + 1);
            assert forall|x: Seq<char>| matched.to_set().contains(x) <==> big.to_set().filter(
                pred,
            ).contains(x) by {
                if matched.to_set().contains(x) {
                    let m = choose|m: int| 0 <= m < matched.len() && matched[m] == x;
                    if m < prev.len() {
                        assert(prev.to_set().contains(x));
                        assert(small.to_set().contains(x));
                        let t = choose|t: int| 0 <= t < small.len() && small[t] == x;
                        assert(big[t] == x);
                    } else {
                        assert(big[j as int] == x);
                    }
                }
                if big.to_set().filter(pred).contains(x) {
                    let t = choose|t: int| 0 <= t < big.len() && big[t] == x;
                    if t < j {
                        assert(small[t] == x);
                        assert(small.to_set().contains(x));
                        assert(prev.to_set().contains(x));
                        let m = choose|m: int| 0 <= m < prev.len() && prev[m] == x;
                        assert(matched[m] == x);
                    } else {
                        assert(matched[matched.len() - 1] == x);
                    }
                }
            }
            assert(matched.to_set() =~= big.to_set().filter(pred));
            assert forall|m: int| 0 <= m < matched.len() implies all.take(j + 1).contains(
                #[trigger] matched[m],
            ) by {
                if m < prev.len() {
                    let t = choose|t: int| 0 <= t < j && all.take(j as int)[t] == prev[m];
                    assert(all.take(j + 1)[t] == prev[m]);
                } else {
                    assert(all.take(j + 1)[j as int] == matched[m]);
                }
            }
        }
        j = j + 1;
    }
    proof {
        assert(all.take(keys@.len() as int) =~= all);
        matched.unique_seq_to_set();
        assert(matched.to_set() =~= matched_keys(*d, preferences@));
    }
    n
}

/// The normalised category of the dish at position `p` of `cands`.
pub open spec fn category_key(c: Catalog, cands: Seq<usize>, p: int) -> Seq<char> {
    crate::text::normalized(c.dishes@[cands[p] as int].category@)
}

/// `groups` partitions the positions `0..n` of `cands` by the normalised
/// category of their dishes: each group is non-empty and increasing and its
/// members share one category; the categories of successive groups increase
/// strictly; and every position lies in a group.
pub open spec fn grouped(c: Catalog, cands: Seq<usize>, n: int, groups: Seq<Seq<usize>>) -> bool {
    &&& forall|g: int| 0 <= g < groups.len() ==> (#[trigger] groups[g]).len() > 0
    &&& forall|g: int, i: int, j: int|
        0 <= g < groups.len() && 0 <= i < j < groups[g].len() ==> (#[trigger] groups[g][i]) < (
        #[trigger] groups[g][j])
    &&& forall|g: int, i: int|
        0 <= g < groups.len() && 0 <= i < groups[g].len() ==> (#[trigger] groups[g][i]) < n
            && category_key(c, cands, groups[g][i] as int) == category_key(
            c,
            cands,
            groups[g][0] as int,
        )
    &&& forall|g1: int, g2: int|
        0 <= g1 < g2 < groups.len() ==> precedes(
            category_key(c, cands, (#[trigger] groups[g1])[0] as int),
            category_key(c, cands, (#[trigger] groups[g2])[0] as int),
        )
    &&& forall|p: int| 0 <= p < n ==> #[trigger] in_some_group(groups, p)
}

/// Whether position `p` lies in one of the groups.
pub open spec fn in_some_group(groups: Seq<Seq<usize>>, p: int) -> bool {
    exists|g: int, i: int|
        0 <= g < groups.len() && 0 <= i < groups[g].len() && (#[trigger] groups[g][i]) == p
}

/// The views of a list of lists of positions.
pub open spec fn position_lists(v: Seq<Vec<usize>>) -> Seq<Seq<usize>> {
    v.map_values(|g: Vec<usize>| g@)
}

/// `admitted` holds, ordered by id, exactly the positions of the dishes of the
/// catalog that pass the hard filters of the request, given the recent dishes
/// `history`; its length is the number of such dishes.
pub open spec fn selection(o: Options, c: Catalog, history: Seq<usize>, admitted: Seq<usize>) -> bool {
    &&& history == history_of(c, o.recent@)
    &&& sorted_by_id(c, admitted)
    &&& forall|j: int|
        0 <= j < admitted.len() ==> #[trigger] admitted[j] < c.dishes@.len() && admits(
            o,
            c,
            history,
            c.dishes@[admitted[j] as int],
        )
    &&& forall|k: int|
        0 <= k < c.dishes@.len() && admits(o, c, history, #[trigger] c.dishes@[k])
            ==> admitted.contains(k as usize)
    &&& admitted.len() == count_admitted(o, c, history, c.dishes@.len() as int)
}

/// The seed of the draws: the request's own seed if it gives one, else the
/// seed drawn at random for it.
pub open spec fn seed_of(o: Options, drawn: u64) -> u64 {
    match o.seed {
        Some(x) => x,
        None => drawn,
    }
}

/// The seed of the draws: the request's own seed if it gives one, else
/// `drawn`, a seed drawn at random for it.
pub fn seed_for(o: &Options, drawn: u64) -> (s: u64)
    ensures
        s == seed_of(*o, drawn),
{
    match o.seed {
        Some(x) => x,
        None => drawn,
    }
}

/// The status of a response with `n` recommendations for `count` requested.
pub open spec fn status_for(n: int, count: int) -> Seq<char> {
    if n == 0 {
        "no_match"@
    } else if n < count {
        "partial"@
    } else {
        "ok"@
    }
}

/// The response to request `o` on catalog `c`, with recent dishes `history`,
/// admitted dishes `admitted` and draws `drawn` made until none was due: one
/// recommendation per draw, holding the drawn dish and its reasons; no dish
/// twice; every dish past the hard filters; `min(count, admitted)` of them.
pub open spec fn outcome(
    o: Options,
    c: Catalog,
    history: Seq<usize>,
    admitted: Seq<usize>,
    drawn: Seq<usize>,
    seed: u64,
    r: Response,
) -> bool {
    &&& r.items@.len() == drawn.len()
    &&& r.items@.len() == if o.count <= admitted.len() {
        o.count as int
    } else {
        admitted.len() as int
    }
    &&& forall|i: int|
        0 <= i < drawn.len() ==> drawn[i] < c.dishes@.len() && admitted.contains(drawn[i])
            && admits(o, c, history, c.dishes@[#[trigger] drawn[i] as int])
    &&& forall|i: int|
        0 <= i < r.items@.len() ==> same_dish(
            (#[trigger] r.items@[i]).dish,
            c.dishes@[drawn[i] as int],
        ) && texts(r.items@[i].reason_codes@) == reasons_for(o, c, history, c.dishes@[drawn[i] as int])
    &&& forall|i: int, j: int|
        0 <= i < j < r.items@.len() ==> (#[trigger] r.items@[i]).dish.id@ != (
        #[trigger] r.items@[j]).dish.id@
    &&& r.status@ == status_for(r.items@.len() as int, o.count as int)
    &&& r.candidate_count == admitted.len()
    &&& r.candidate_count == count_admitted(o, c, history, c.dishes@.len() as int)
    &&& r.requested_count == o.count
    &&& r.seed == seed
    &&& r.dataset_id == c.id
    &&& r.dataset_version == c.version
    &&& r.algorithm_version@ == "1"@
    &&& texts(r.warnings@) == warnings_of(o, c)
}

/// A recommendation in progress: the request, the catalog it reads, the
/// recent dishes, and the candidates not drawn yet. The draws themselves are
/// made by the caller, one position in `candidates` at a time.
pub struct Session<'a> {
    options: &'a Options,
    catalog: &'a Catalog,
    history: Vec<usize>,
    warnings: Vec<String>,
    candidates: Vec<usize>,
    candidate_count: usize,
    items: Vec<Recommendation>,
    admitted: Ghost<Seq<usize>>,
    picked: Ghost<Seq<usize>>,
}

impl<'a> Session<'a> {
    /// The request.
    pub closed spec fn request(&self) -> Options {
        *self.options
    }

    /// The catalog the request reads.
    pub closed spec fn source(&self) -> Catalog {
        *self.catalog
    }

    /// The recent dishes, as positions in the catalog.
    pub closed spec fn recent(&self) -> Seq<usize> {
        self.history@
    }

    /// The dishes that passed the hard filters, as positions in the catalog
    /// ordered by id.
    pub closed spec fn admitted(&self) -> Seq<usize> {
        self.admitted@
    }

    /// The candidates not drawn yet, as positions in the catalog.
    pub closed spec fn remaining(&self) -> Seq<usize> {
        self.candidates@
    }

    /// The dishes drawn so far, in order, as positions in the catalog.
    pub closed spec fn drawn(&self) -> Seq<usize> {
        self.picked@
    }

    /// The recommendations made so far.
    pub closed spec fn made(&self) -> Seq<Recommendation> {
        self.items@
    }

    /// Whether another draw is due: candidates remain and fewer dishes than
    /// requested have been drawn.
    pub open spec fn due(&self) -> bool {
        self.remaining().len() > 0 && self.drawn().len() < self.request().count
    }

    /// Starts a recommendation: checks the request, then the catalog it
    /// names (a catalog of the request replaces the built-in one and is
    /// checked; the built-in one is valid), resolves the recent entries, and
    /// collects, ordered by id, every dish that passes the hard filters. Hard
    /// filters never relax: a dish that fails one is never a candidate.
    pub fn start(o: &'a Options, builtin: &'a Catalog) -> (r: Result<Session<'a>, Error>)
        requires
            o.catalog is None ==> catalog_valid(*builtin),
        ensures
            r is Err <==> (request_fault(*o) is Some || (o.catalog matches Some(c)
                && !catalog_valid(c))),
            r matches Err(e) ==> match request_fault(*o) {
                Some(m) => e.0@ == m,
                None => o.catalog matches Some(c) && crate::catalog::explains(c, e.0@),
            },
            r matches Ok(s) ==> {
                &&& s.wf()
                &&& s.request() == *o
                &&& s.source() == match o.catalog {
                    Some(c) => c,
                    None => *builtin,
                }
                &&& catalog_valid(s.source())
                &&& selection(*o, s.source(), s.recent(), s.admitted())
                &&& s.drawn().len() == 0
                &&& s.remaining() == s.admitted()
                &&& s.made().len() == 0
            },
    {
        match check_request(o) {
            Ok(()) => {},
            Err(e) => {
                return Err(e);
            },
        }
        let catalog: &'a Catalog = match &o.catalog {
            Some(c) => {
                match c.validate() {
                    Ok(()) => {},
                    Err(e) => {
                        return Err(e);
                    },
                }
                c
            },
            None => builtin,
        };
        proof {
            lemma_valid_ids_distinct(*catalog);
        }
        let (history, mut warnings) = recall(o, catalog);
        if o.exclude_ingredients.len() > 0 && !o.require_complete_ingredients {
            let ghost before = texts(warnings@);
            warnings.push(String::from_str("INGREDIENT_EXCLUSION_USES_KNOWN_INGREDIENTS_ONLY"));
            assert(texts(warnings@) =~= before.push(
                "INGREDIENT_EXCLUSION_USES_KNOWN_INGREDIENTS_ONLY"@,
            ));
        }
        let candidates = select(o, catalog, &history);
        let ghost adm = candidates@;
        let s = Session {
            options: o,
            catalog,
            history,
            warnings,
            candidate_count: candidates.len(),
            candidates,
            items: Vec::new(),
            admitted: Ghost(adm),
            picked: Ghost(Seq::empty()),
        };
        proof {
            assert forall|i: int, j: int|
                0 <= i < s.picked@.len() && 0 <= j < s.candidates@.len() implies s.picked@[i]
                != s.candidates@[j] by {}
            assert forall|k: usize| adm.contains(k) <==> (s.picked@.contains(k)
                || s.candidates@.contains(k)) by {}
        }
        Ok(s)
    }

    /// The catalog the request reads.
    pub fn catalog(&self) -> (c: &'a Catalog)
        ensures
            *c == self.source(),
    {
        self.catalog
    }

    /// The candidates not drawn yet, as positions in the catalog, ordered by id.
    pub fn candidates(&self) -> (v: &Vec<usize>)
        ensures
            v@ == self.remaining(),
    {
        &self.candidates
    }

    /// The recent dishes, as positions in the catalog, most recent first.
    pub fn history(&self) -> (v: &Vec<usize>)
        ensures
            v@ == self.recent(),
    {
        &self.history
    }

    /// The recommendations made so far, in the order they were drawn.
    pub fn items(&self) -> (v: &Vec<Recommendation>)
        ensures
            v@ == self.made(),
    {
        &self.items
    }

    /// The remaining candidates grouped by normalised category: groups in
    /// increasing order of category, each holding, in increasing order, the
    /// positions among the remaining candidates of the dishes of that category.
    pub fn groups(&self) -> (r: Vec<Vec<usize>>)
        requires
            self.wf(),
        ensures
            grouped(self.source(), self.remaining(), self.remaining().len() as int, position_lists(r@)),
    {
        let ghost c = *self.catalog;
        let ghost cands = self.candidates@;
        let mut groups: Vec<Vec<usize>> = Vec::new();
        let mut gkeys: Vec<Vec<char>> = Vec::new();
        let mut p: usize = 0;
        while p < self.candidates.len()
            invariant
                self.wf(),
                cands == self.candidates@,
                c == *self.catalog,
                p <= cands.len(),
                gkeys@.len() == groups@.len(),
                forall|g: int|
                    0 <= g < groups@.len() ==> (#[trigger] gkeys@[g])@ == category_key(
                        c,
                        cands,
                        groups@[g]@[0] as int,
                    ),
                grouped(c, cands, p as int, position_lists(groups@)),
            decreases cands.len() - p,
        {
            let ci = self.candidates[p];
            proof {
                assert(cands.contains(ci));
                assert(self.admitted@.contains(ci));
            }
            let key = crate::order::chars_of(crate::text::norm(self.catalog.dishes[ci].category.as_str()).as_str());
            assert(key@ == category_key(c, cands, p as int));
            let mut g: usize = 0;
            while g < gkeys.len() && less(&gkeys[g], &key)
                invariant
                    g <= gkeys@.len(),
                    gkeys@.len() == groups@.len(),
                    forall|h: int| 0 <= h < g ==> precedes((#[trigger] gkeys@[h])@, key@),
                decreases gkeys@.len() - g,
            {
                g = g + 1;
            }
            let ghost old_groups = position_lists(groups@);
            let ghost old_keys = gkeys@;
            if g < gkeys.len() && !less(&key, &gkeys[g]) {
                proof {
                    crate::order::lemma_precedes_total(key@, gkeys@[g as int]@);
                }
                let mut grp = groups.remove(g);
                grp.push(p);
                groups.insert(g, grp);
                proof {
                    let ng = position_lists(groups@);
                    assert(ng =~= old_groups.update(g as int, old_groups[g as int].push(p)));
                    assert(gkeys@[g as int]@ == key@);
                    assert(grouped(c, cands, p + 1, ng)) by {
                        assert forall|p2: int| 0 <= p2 < p + 1 implies #[trigger] in_some_group(ng, p2) by {
                            if p2 < p {
                                assert(in_some_group(old_groups, p2));
                                let (h, i) = choose|h: int, i: int|
                                    0 <= h < old_groups.len() && 0 <= i < old_groups[h].len()
                                        && (#[trigger] old_groups[h][i]) == p2;
                                assert(ng[h][i] == p2);
                            } else {
                                assert(ng[g as int][old_groups[g as int].len() as int] == p2);
                            }
                        }
                    }
                }
            } else {
                proof {
                    if g < gkeys.len() {
                        crate::order::lemma_precedes_total(key@, gkeys@[g as int]@);
                    }
                }
                let mut grp: Vec<usize> = Vec::new();
                grp.push(p);
                groups.insert(g, grp);
                gkeys.insert(g, key);
                proof {
                    let ng = position_lists(groups@);
                    assert(ng =~= old_groups.insert(g as int, seq![p]));
                    assert(gkeys@ =~= old_keys.insert(g as int, key));
                    assert forall|h: int|
                        0 <= h < groups@.len() implies (#[trigger] gkeys@[h])@ == category_key(
                        c,
                        cands,
                        groups@[h]@[0] as int,
                    ) by {
                        if h < g {
                            assert(gkeys@[h] == old_keys[h] && ng[h] == old_groups[h]);
                        } else if h > g {
                            assert(gkeys@[h] == old_keys[h - 1] && ng[h] == old_groups[h - 1]);
                        }
                    }
                    assert(grouped(c, cands, p + 1, ng)) by {
                        assert forall|g1: int, g2: int| 0 <= g1 < g2 < ng.len() implies precedes(
                            category_key(c, cands, (#[trigger] ng[g1])[0] as int),
                            category_key(c, cands, (#[trigger] ng[g2])[0] as int),
                        ) by {
                            if g2 < g {
                                assert(ng[g1] == old_groups[g1] && ng[g2] == old_groups[g2]);
                            } else if g2 == g {
                                assert(ng[g1] == old_groups[g1]);
                                assert(precedes(old_keys[g1]@, key@));
                            } else if g1 < g {
                                assert(ng[g1] == old_groups[g1] && ng[g2] == old_groups[g2 - 1]);
                                assert(precedes(old_keys[g1]@, key@));
                                assert(precedes(key@, old_keys[g as int]@));
                                if g2 - 1 > g {
                                    crate::order::lemma_precedes_transitive(
                                        key@,
                                        old_keys[g as int]@,
                                        old_keys[g2 - 1]@,
                                    );
                                }
                                crate::order::lemma_precedes_transitive(
                                    old_keys[g1]@,
                                    key@,
                                    old_keys[g2 - 1]@,
                                );
                            } else if g1 == g {
                                assert(ng[g2] == old_groups[g2 - 1]);
                                assert(precedes(key@, old_keys[g as int]@));
                                if g2 - 1 > g {
                                    crate::order::lemma_precedes_transitive(
                                        key@,
                                        old_keys[g as int]@,
                                        old_keys[g2 - 1]@,
                                    );
                                }
                            } else {
                                assert(ng[g1] == old_groups[g1 - 1] && ng[g2] == old_groups[g2 - 1]);
                            }
                        }
                        assert forall|h: int, i: int, j: int|
                            0 <= h < ng.len() && 0 <= i < j < ng[h].len() implies (#[trigger] ng[h][i]) < (
                            #[trigger] ng[h][j]) by {
                            if h < g {
                                assert(ng[h] == old_groups[h]);
                            } else if h > g {
                                assert(ng[h] == old_groups[h - 1]);
                            }
                        }
                        assert forall|h: int, i: int|
                            0 <= h < ng.len() && 0 <= i < ng[h].len() implies (#[trigger] ng[h][i]) < p + 1
                                && category_key(c, cands, ng[h][i] as int) == category_key(
                                c,
                                cands,
                                ng[h][0] as int,
                            ) by {
                            if h < g {
                                assert(ng[h] == old_groups[h]);
                            } else if h > g {
                                assert(ng[h] == old_groups[h - 1]);
                            }
                        }
                        assert forall|p2: int| 0 <= p2 < p + 1 implies #[trigger] in_some_group(ng, p2) by {
                            if p2 < p {
                                assert(in_some_group(old_groups, p2));
                                let (h, i) = choose|h: int, i: int|
                                    0 <= h < old_groups.len() && 0 <= i < old_groups[h].len()
                                        && (#[trigger] old_groups[h][i]) == p2;
                                if h < g {
                                    assert(ng[h][i] == p2);
                                } else {
                                    assert(ng[h + 1][i] == p2);
                                }
                            } else {
                                assert(ng[g as int][0] == p2);
                            }
                        }
                    }
                }
            }
            p = p + 1;
        }
        groups
    }

    /// Whether another draw is due.
    pub fn is_due(&self) -> (b: bool)
        requires
            self.wf(),
        ensures
            b == self.due(),
    {
        self.candidates.len() > 0 && self.items.len() < self.options.count
    }

    /// Draws the candidate at `index` among the remaining ones: it leaves the
    /// candidates, so no dish is drawn twice, and becomes the next
    /// recommendation, with the reasons the rules give for it.
    pub fn pick(&mut self, index: usize)
        requires
            old(self).wf(),
            old(self).due(),
            index < old(self).remaining().len(),
        ensures
            final(self).wf(),
            final(self).request() == old(self).request(),
            final(self).source() == old(self).source(),
            final(self).recent() == old(self).recent(),
            final(self).admitted() == old(self).admitted(),
            final(self).remaining() == old(self).remaining().remove(index as int),
            final(self).drawn() == old(self).drawn().push(old(self).remaining()[index as int]),
            final(self).made().len() == old(self).made().len() + 1,
            forall|i: int|
                0 <= i < old(self).made().len() ==> #[trigger] final(self).made()[i] == old(
                    self,
                ).made()[i],
            same_dish(
                final(self).made().last().dish,
                old(self).source().dishes@[old(self).remaining()[index as int] as int],
            ),
            texts(final(self).made().last().reason_codes@) == reasons_for(
                old(self).request(),
                old(self).source(),
                old(self).recent(),
                old(self).source().dishes@[old(self).remaining()[index as int] as int],
            ),
    {
        let ghost cands = self.candidates@;
        let ghost picked = self.picked@;
        let ghost adm = self.admitted@;
        let k = self.candidates.remove(index);
        proof {
            assert(cands.contains(k));
            assert(adm.contains(k));
        }
        let d = &self.catalog.dishes[k];
        let reasons = reasons_exec(self.options, self.catalog, &self.history, d);
        let item = Recommendation { dish: copy_dish(d), reason_codes: reasons };
        self.items.push(item);
        self.picked = Ghost(picked.push(k));
        proof {
            let c = *self.catalog;
            let newc = self.candidates@;
            let newp = self.picked@;
            assert(newc =~= cands.remove(index as int));
            assert forall|i: int, j: int| 0 <= i < j < newc.len() implies precedes(
                c.dishes@[#[trigger] newc[i] as int].id@,
                c.dishes@[#[trigger] newc[j] as int].id@,
            ) by {
                let i0 = if i < index { i } else { i + 1 };
                let j0 = if j < index { j } else { j + 1 };
                assert(newc[i] == cands[i0] && newc[j] == cands[j0]);
            }
            assert forall|i: int, j: int|
                0 <= i < newp.len() && 0 <= j < newc.len() implies newp[i] != newc[j] by {
                let j0 = if j < index { j } else { j + 1 };
                assert(newc[j] == cands[j0]);
                if i == picked.len() {
                    if newc[j] == k {
                        crate::order::lemma_precedes_irreflexive(c.dishes@[k as int].id@);
                        if j0 < index {
                            assert(precedes(c.dishes@[cands[j0] as int].id@, c.dishes@[cands[index as int] as int].id@));
                        } else {
                            assert(precedes(c.dishes@[cands[index as int] as int].id@, c.dishes@[cands[j0] as int].id@));
                        }
                    }
                }
            }
            assert forall|i: int, j: int| 0 <= i < j < newp.len() implies newp[i] != newp[j] by {
                if j == picked.len() {
                    assert(newp[j] == cands[index as int]);
                }
            }
            assert forall|m: usize| adm.contains(m) <==> (newp.contains(m) || newc.contains(m)) by {
                if adm.contains(m) {
                    if picked.contains(m) {
                        let i = choose|i: int| 0 <= i < picked.len() && picked[i] == m;
                        assert(newp[i] == m);
                    } else {
                        let j = choose|j: int| 0 <= j < cands.len() && cands[j] == m;
                        if j < index {
                            assert(newc[j] == m);
                        } else if j > index {
                            assert(newc[j - 1] == m);
                        } else {
                            assert(newp[picked.len() as int] == m);
                        }
                    }
                }
                if newp.contains(m) {
                    let i = choose|i: int| 0 <= i < newp.len() && newp[i] == m;
                    if i < picked.len() {
                        assert(picked[i] == m);
                        assert(picked.contains(m));
                    } else {
                        assert(cands.contains(m));
                    }
                }
                if newc.contains(m) {
                    let j = choose|j: int| 0 <= j < newc.len() && newc[j] == m;
                    let j0 = if j < index { j } else { j + 1 };
                    assert(cands[j0] == m);
                    assert(cands.contains(m));
                }
            }
            assert forall|i: int| 0 <= i < newp.len() implies same_dish(
                (#[trigger] self.items@[i]).dish,
                c.dishes@[newp[i] as int],
            ) && texts(self.items@[i].reason_codes@) == reasons_for(
                *self.options,
                c,
                self.history@,
                c.dishes@[newp[i] as int],
            ) by {
                if i < picked.len() {
                    assert(newp[i] == picked[i]);
                }
            }
        }
    }

    /// Ends the recommendation: the dishes drawn, each once, in the order
    /// drawn, with their reasons; `min(count, candidates)` of them, since draws
    /// go on while candidates remain and fewer than `count` were drawn; the
    /// status says whether the request was met (`ok`), partly met (`partial`)
    /// or no dish passed the hard filters (`no_match`). The response carries
    /// the seed of the draws: the request's seed if it gives one, else `drawn`.
    pub fn finish(self, drawn: u64) -> (r: Response)
        requires
            self.wf(),
            !self.due(),
        ensures
            outcome(
                self.request(),
                self.source(),
                self.recent(),
                self.admitted(),
                self.drawn(),
                seed_of(self.request(), drawn),
                r,
            ),
    {
        let seed = seed_for(self.options, drawn);
        let ghost o = *self.options;
        let ghost c = *self.catalog;
        let n = self.items.len();
        let status = if n == 0 {
            String::from_str("no_match")
        } else if n < self.options.count {
            String::from_str("partial")
        } else {
            String::from_str("ok")
        };
        let r = Response {
            items: self.items,
            status,
            candidate_count: self.candidate_count,
            requested_count: self.options.count,
            seed,
            dataset_id: self.catalog.id.clone(),
            dataset_version: self.catalog.version.clone(),
            algorithm_version: String::from_str("1"),
            warnings: self.warnings,
        };
        proof {
            let picked = self.picked@;
            let adm = self.admitted@;
            assert forall|i: int, j: int| 0 <= i < j < r.items@.len() implies (
            #[trigger] r.items@[i]).dish.id@ != (#[trigger] r.items@[j]).dish.id@ by {
                assert(adm.contains(picked[i]));
                assert(adm.contains(picked[j]));
            }
            assert forall|i: int| 0 <= i < r.items@.len() implies picked[i] < c.dishes@.len()
                && admits(o, c, self.history@, c.dishes@[#[trigger] picked[i] as int]) by {
                assert(adm.contains(picked[i]));
            }
        }
        r
    }

    /// The invariant of a session.
    pub closed spec fn wf(&self) -> bool {
        let o = *self.options;
        let c = *self.catalog;
        let h = self.history@;
        let adm = self.admitted@;
        let picked = self.picked@;
        let cands = self.candidates@;
        &&& catalog_valid(c)
        &&& ids_distinct(c)
        &&& h == history_of(c, o.recent@)
        &&& forall|j: int| 0 <= j < h.len() ==> #[trigger] h[j] < c.dishes@.len()
        &&& texts(self.warnings@) == warnings_of(o, c)
        &&& sorted_by_id(c, adm)
        &&& forall|j: int|
            0 <= j < adm.len() ==> #[trigger] adm[j] < c.dishes@.len() && admits(
                o,
                c,
                h,
                c.dishes@[adm[j] as int],
            )
        &&& forall|k: int|
            0 <= k < c.dishes@.len() && admits(o, c, h, #[trigger] c.dishes@[k]) ==> adm.contains(
                k as usize,
            )
        &&& adm.len() == count_admitted(o, c, h, c.dishes@.len() as int)
        &&& self.candidate_count == adm.len()
        &&& picked.len() + cands.len() == adm.len()
        &&& forall|k: usize| adm.contains(k) <==> (picked.contains(k) || cands.contains(k))
        &&& sorted_by_id(c, cands)
        &&& forall|i: int, j: int| 0 <= i < j < picked.len() ==> picked[i] != picked[j]
        &&& forall|i: int, j: int|
            0 <= i < picked.len() && 0 <= j < cands.len() ==> picked[i] != cands[j]
        &&& self.items@.len() == picked.len()
        &&& picked.len() <= o.count
        &&& forall|i: int|
            0 <= i < picked.len() ==> same_dish(
                (#[trigger] self.items@[i]).dish,
                c.dishes@[picked[i] as int],
            ) && texts(self.items@[i].reason_codes@) == reasons_for(
                o,
                c,
                h,
                c.dishes@[picked[i] as int],
            )
    }
}

} // verus!
