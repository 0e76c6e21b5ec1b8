use eatwhat::{
    chars_of, check_request, copy_dish, has, intersects, less, nonempty, norm, overlap,
    preference_hits, Catalog, Dish, Error, Options, Session, Source, Strategy,
};

fn s(v: &str) -> String {
    v.to_string()
}

fn labels(v: &[&str]) -> Vec<String> {
    v.iter().map(|x| x.to_string()).collect()
}

fn plain(id: &str, name: &str, category: &str) -> Dish {
    Dish {
        id: s(id),
        name: s(name),
        aliases: vec![],
        category: s(category),
        regions: vec![],
        tags: vec![],
        ingredients: vec![],
        ingredients_complete: false,
        meals: vec![],
        modes: vec![],
        themes: vec![],
        minutes_max: None,
        cost_max_fen: None,
        familiarity_bits: 0.5f64.to_bits(),
        sources: labels(&["src"]),
    }
}

fn small() -> Catalog {
    let mut a = plain("b_2", "Noodles", "Wheat");
    a.aliases = labels(&["Lamian"]);
    a.tags = labels(&["Spicy"]);
    a.ingredients = labels(&["flour"]);
    let mut b = plain("a_1", "Rice", "grain");
    b.tags = labels(&["mild"]);
    b.ingredients = labels(&["rice", "egg"]);
    let mut c = plain("c_3", "Congee", " Grain ");
    c.tags = labels(&["mild", "warm"]);
    c.ingredients = labels(&["rice"]);
    Catalog {
        schema_version: 1,
        id: s("pack"),
        version: s("1"),
        sources: vec![Source { id: s("src"), title: s("t"), license: s("l"), reference: s("r") }],
        dishes: vec![a, b, c],
    }
}

fn message(r: Result<(), Error>) -> String {
    r.unwrap_err().message()
}

#[test]
fn norm_trims_and_lowercases() {
    assert_eq!(norm("  ÄbC \t\n"), "äbc");
    assert_eq!(norm("\u{3000}番茄炒蛋 "), "番茄炒蛋");
    assert_eq!(norm(""), "");
}

#[test]
fn nonempty_needs_more_than_whitespace() {
    assert!(nonempty(" x "));
    assert!(!nonempty(" \t\u{3000}"));
    assert!(!nonempty(""));
}

#[test]
fn has_and_intersects_compare_normalised() {
    let v = labels(&["  Spicy", "mild"]);
    assert!(has(&v, "SPICY "));
    assert!(!has(&v, "sweet"));
    assert!(!has(&[], "x"));
    assert!(intersects(&labels(&["a", " MILD"]), &v));
    assert!(!intersects(&labels(&["a"]), &v));
    assert!(!intersects(&[], &v));
}

#[test]
fn string_order_is_code_point_order() {
    assert!(less(&chars_of("a_1"), &chars_of("b_2")));
    assert!(!less(&chars_of("b"), &chars_of("b")));
    assert!(less(&chars_of("ab"), &chars_of("abc")));
    assert!(!less(&chars_of("abc"), &chars_of("ab")));
    assert!(less(&chars_of("Z"), &chars_of("a")));
    assert_eq!(chars_of("番茄"), vec!['番', '茄']);
}

#[test]
fn small_catalog_is_valid() {
    assert!(small().validate().is_ok());
}

#[test]
fn validate_header_error() {
    let mut c = small();
    c.schema_version = 2;
    assert_eq!(message(c.validate()), "invalid catalog header (schema_version must be 1)");
    let mut c = small();
    c.version = s(" ");
    assert_eq!(message(c.validate()), "invalid catalog header (schema_version must be 1)");
}

#[test]
fn validate_source_errors() {
    let mut c = small();
    c.sources.push(c.sources[0].clone());
    assert_eq!(message(c.validate()), "invalid or duplicate source");
    let mut c = small();
    c.sources[0].license = s("");
    assert_eq!(message(c.validate()), "invalid or duplicate source");
}

#[test]
fn validate_dish_field_errors() {
    let mut c = small();
    c.dishes[1].id = s("b_2");
    assert_eq!(message(c.validate()), "invalid dish: b_2");
    let mut c = small();
    c.dishes[2].familiarity_bits = 1.5f64.to_bits();
    assert_eq!(message(c.validate()), "invalid dish: c_3");
    let mut c = small();
    c.dishes[2].familiarity_bits = f64::NAN.to_bits();
    assert_eq!(message(c.validate()), "invalid dish: c_3");
    let mut c = small();
    c.dishes[2].familiarity_bits = (-0.0f64).to_bits();
    assert!(c.validate().is_ok());
    c.dishes[2].familiarity_bits = 1.0f64.to_bits();
    assert!(c.validate().is_ok());
    let mut c = small();
    c.dishes[0].ingredients_complete = true;
    assert!(c.validate().is_ok());
    c.dishes[0].ingredients.clear();
    assert_eq!(message(c.validate()), "invalid dish: b_2");
    let mut c = small();
    c.dishes[1].sources.clear();
    assert_eq!(message(c.validate()), "invalid dish: a_1");
}

#[test]
fn validate_label_and_name_errors() {
    let mut c = small();
    c.dishes[1].themes = labels(&["ok", "  "]);
    assert_eq!(message(c.validate()), "empty label in a_1");
    let mut c = small();
    c.dishes[2].aliases = labels(&["rice "]);
    assert_eq!(message(c.validate()), "ambiguous name/alias/id: rice ");
    let mut c = small();
    c.dishes[2].name = s("LAMIAN");
    assert_eq!(message(c.validate()), "ambiguous name/alias/id: LAMIAN");
    let mut c = small();
    c.dishes[0].aliases = labels(&["noodles", "b_2"]);
    assert!(c.validate().is_ok());
}

#[test]
fn resolve_by_id_name_or_alias() {
    let c = small();
    assert_eq!(c.resolve(" lamian").map(|d| d.id.clone()), Some(s("b_2")));
    assert_eq!(c.resolve("RICE").map(|d| d.id.clone()), Some(s("a_1")));
    assert_eq!(c.resolve("c_3").map(|d| d.id.clone()), Some(s("c_3")));
    assert!(c.resolve("soup").is_none());
    assert_eq!(c.resolve_index("congee"), Some(2));
}

#[test]
fn request_errors() {
    let o = Options { count: 0, ..Default::default() };
    assert_eq!(message(check_request(&o)), "count must be in 1..=100");
    let o = Options { budget_max_fen: Some(10), mode: Some(s("Cook")), ..Default::default() };
    assert_eq!(message(check_request(&o)), "budget_max_fen is ingredient cost; mode must be cook");
    let o = Options { budget_max_fen: Some(10), mode: Some(s("cook")), ..Default::default() };
    assert!(check_request(&o).is_ok());
    let o = Options { recent: labels(&[" "]), ..Default::default() };
    assert_eq!(message(check_request(&o)), "empty filter label");
    let o = Options { theme: Some(s("")), ..Default::default() };
    assert_eq!(message(check_request(&o)), "empty filter label");
    assert!(check_request(&Options { count: 100, ..Default::default() }).is_ok());
}

#[test]
fn default_options() {
    let o = Options::default();
    assert_eq!(o.count, 1);
    assert_eq!(o.strategy, Strategy::Balanced);
    assert!(o.require_complete_ingredients && o.exclude_recent);
    assert!(o.catalog.is_none() && o.seed.is_none());
    assert_eq!(Strategy::default(), Strategy::Balanced);
}

#[test]
fn session_orders_candidates_by_id() {
    let c = small();
    let o = Options { count: 3, ..Default::default() };
    let s = Session::start(&o, &c).unwrap();
    assert_eq!(s.candidates(), &vec![1, 0, 2]);
    assert!(s.history().is_empty());
}

#[test]
fn session_groups_by_normalised_category() {
    let c = small();
    let o = Options { count: 3, ..Default::default() };
    let s = Session::start(&o, &c).unwrap();
    // candidates: a_1 (grain), b_2 (Wheat), c_3 ( Grain )
    assert_eq!(s.groups(), vec![vec![0, 2], vec![1]]);
}

#[test]
fn session_recent_history_and_warnings() {
    let c = small();
    let o = Options {
        count: 3,
        recent: labels(&["lamian", "unknown dish", "b_2", "rice"]),
        exclude_recent: false,
        ..Default::default()
    };
    let mut s = Session::start(&o, &c).unwrap();
    assert_eq!(s.history(), &vec![0, 1]);
    while s.is_due() {
        s.pick(s.candidates().len() - 1);
    }
    let r = s.finish(7);
    assert_eq!(r.warnings, labels(&["UNKNOWN_RECENT:unknown dish"]));
    assert_eq!(r.status, "ok");
    assert_eq!(r.seed, 7);
    assert_eq!(r.items.iter().map(|i| i.dish.id.clone()).collect::<Vec<_>>(), labels(&["c_3", "b_2", "a_1"]));
    assert_eq!(r.items[0].reason_codes, labels(&["HARD_FILTERS_SATISFIED", "NOT_IN_RECENT"]));
    assert_eq!(r.items[1].reason_codes, labels(&["HARD_FILTERS_SATISFIED"]));
}

#[test]
fn session_excludes_recent_and_explains_preferences() {
    let c = small();
    let o = Options {
        count: 5,
        recent: labels(&["Noodles"]),
        preferences: labels(&["MILD", " mild", "egg"]),
        ..Default::default()
    };
    let mut s = Session::start(&o, &c).unwrap();
    assert_eq!(s.candidates(), &vec![1, 2]);
    s.pick(0);
    s.pick(0);
    assert!(!s.is_due());
    let r = s.finish(1);
    assert_eq!(r.status, "partial");
    assert_eq!(r.candidate_count, 2);
    assert_eq!(r.requested_count, 5);
    assert_eq!(r.dataset_id, "pack");
    assert_eq!(r.algorithm_version, "1");
    assert_eq!(
        r.items[0].reason_codes,
        labels(&["HARD_FILTERS_SATISFIED", "MATCH_PREFERENCE", "NOT_IN_RECENT"])
    );
    let u = Options { strategy: Strategy::Uniform, ..o.clone() };
    let mut s = Session::start(&u, &c).unwrap();
    s.pick(1);
    s.pick(0);
    let r = s.finish(1);
    assert_eq!(r.items[0].dish.id, "c_3");
    assert_eq!(r.items[0].reason_codes, labels(&["HARD_FILTERS_SATISFIED", "NOT_IN_RECENT"]));
}

#[test]
fn session_ingredient_warning_and_errors() {
    let c = small();
    let o = Options {
        count: 3,
        exclude_ingredients: labels(&["Egg"]),
        require_complete_ingredients: false,
        ..Default::default()
    };
    let s = Session::start(&o, &c).unwrap();
    assert_eq!(s.candidates(), &vec![0, 2]);
    let r = {
        let mut s = s;
        while s.is_due() {
            s.pick(0);
        }
        s.finish(0)
    };
    assert_eq!(r.warnings, labels(&["INGREDIENT_EXCLUSION_USES_KNOWN_INGREDIENTS_ONLY"]));
    let mut bad = small();
    bad.schema_version = 0;
    let o = Options { catalog: Some(bad), ..Default::default() };
    assert_eq!(Session::start(&o, &c).err().unwrap().message(), "invalid catalog header (schema_version must be 1)");
    let o = Options { count: 101, ..Default::default() };
    assert_eq!(Session::start(&o, &c).err().unwrap().message(), "count must be in 1..=100");
}

#[test]
fn session_no_match() {
    let c = small();
    let o = Options { meal: Some(s("breakfast")), ..Default::default() };
    let s = Session::start(&o, &c).unwrap();
    assert!(!s.is_due());
    let r = s.finish(3);
    assert_eq!(r.status, "no_match");
    assert_eq!(r.candidate_count, 0);
    assert!(r.items.is_empty());
}

#[test]
fn preference_hits_counts_distinct_keys() {
    let c = small();
    let prefs = labels(&["MILD", " mild", "rice", "spicy"]);
    assert_eq!(preference_hits(&c.dishes[2], &prefs), 2);
    assert_eq!(preference_hits(&c.dishes[0], &prefs), 1);
    assert_eq!(preference_hits(&c.dishes[0], &vec![]), 0);
}

#[test]
fn overlap_parts() {
    let c = small();
    let o = overlap(&c.dishes[1], &c.dishes[2]);
    assert!(!o.same_dish && o.same_category && o.shared_ingredient && o.shared_tag);
    let o = overlap(&c.dishes[0], &c.dishes[1]);
    assert!(!o.same_dish && !o.same_category && !o.shared_ingredient && !o.shared_tag);
    assert!(overlap(&c.dishes[0], &c.dishes[0]).same_dish);
}

#[test]
fn copy_keeps_every_field() {
    let c = small();
    assert_eq!(copy_dish(&c.dishes[0]), c.dishes[0]);
}
