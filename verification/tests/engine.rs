use eatwhat::{Catalog, Dish, Error, Options, Response, Session, Source, Strategy};
use std::collections::BTreeSet;

fn s(v: &str) -> String {
    v.to_string()
}

fn labels(v: &[&str]) -> Vec<String> {
    v.iter().map(|x| x.to_string()).collect()
}

#[allow(clippy::too_many_arguments)]
fn dish(id: &str, name: &str, aliases: &[&str], category: &str, tags: &[&str], ingredients: &[&str],
        modes: &[&str], themes: &[&str], minutes: Option<u32>, cost: Option<u32>) -> Dish {
    Dish {
        id: s(id),
        name: s(name),
        aliases: labels(aliases),
        category: s(category),
        regions: vec![],
        tags: labels(tags),
        ingredients: labels(ingredients),
        ingredients_complete: false,
        meals: labels(&["lunch", "dinner"]),
        modes: labels(modes),
        themes: labels(themes),
        minutes_max: minutes,
        cost_max_fen: cost,
        familiarity_bits: 0.6f64.to_bits(),
        sources: labels(&["editorial"]),
    }
}

/// A catalog standing in for the bundled data pack.
fn catalog() -> Catalog {
    let mut dishes = vec![
        dish("core_0001", "番茄炒蛋", &["西红柿炒鸡蛋"], "家常菜", &["酸鲜"], &["番茄", "鸡蛋"],
             &["cook", "eat_out"], &["quick_meal"], Some(20), Some(800)),
        dish("core_0002", "宫保鸡丁", &[], "家常菜", &["香辣"], &["鸡肉", "花生"],
             &["cook", "eat_out"], &[], Some(30), Some(1800)),
        dish("core_0003", "蛋炒饭", &["炒饭"], "米饭", &["清淡"], &["米饭", "鸡蛋"],
             &["cook"], &["quick_meal"], Some(15), Some(600)),
        dish("core_0004", "卤肉饭", &[], "米饭", &["咸鲜"], &["猪肉", "米饭"],
             &["cook", "eat_out"], &[], Some(90), Some(1500)),
        dish("core_0005", "咖喱饭", &[], "米饭", &["香辣"], &["土豆", "米饭"],
             &["cook"], &["comfort_food"], Some(25), Some(1200)),
        dish("core_0006", "煲仔饭", &[], "米饭", &["咸鲜"], &["腊肠", "米饭"],
             &["eat_out"], &[], None, None),
        dish("core_0007", "花生汤", &[], "汤", &["甜"], &["花生"],
             &["cook"], &["rainy_day"], Some(40), Some(500)),
    ];
    let categories = ["面食", "汤", "小吃", "米饭", "素菜"];
    for i in 0..45u32 {
        let id = format!("gen_{:04}", i);
        let name = format!("菜品{}", i);
        let category = categories[(i % 5) as usize];
        let themes: &[&str] = if i % 3 == 0 { &["quick_meal"] } else { &[] };
        dishes.push(dish(&id, &name, &[], category, &["清淡"], &["青菜"], &["cook"], themes,
                         Some(10 + i % 40), Some(300 + 40 * i)));
    }
    Catalog {
        schema_version: 1,
        id: s("core"),
        version: s("0.1.0"),
        sources: vec![Source { id: s("editorial"), title: s("Editorial seed"), license: s("CC0"),
                               reference: s("internal") }],
        dishes,
    }
}

fn options() -> Options {
    Options { seed: Some(42), ..Default::default() }
}

/// Draws with a simple seeded generator, standing in for the weighted draw.
fn draw(o: &Options, builtin: &Catalog) -> Result<Response, Error> {
    let mut session = Session::start(o, builtin)?;
    let seed = o.seed.unwrap_or(0);
    let mut state = seed;
    while session.is_due() {
        state = state.wrapping_mul(6364136223846793005).wrapping_add(1442695040888963407);
        let n = session.candidates().len();
        session.pick(((state >> 33) as usize) % n);
    }
    Ok(session.finish(seed))
}

fn recommend(o: &Options) -> Result<Response, Error> {
    draw(o, &catalog())
}

#[test]
fn stand_in_draws_repeat_without_replacement() {
    let o = Options { count: 30, ..options() };
    let a = recommend(&o).unwrap();
    assert_eq!(a, recommend(&o).unwrap());
    assert_eq!(a.items.len(), 30);
    assert_eq!(a.items.iter().map(|i| &i.dish.id).collect::<BTreeSet<_>>().len(), 30);
}

#[test]
fn stand_in_hard_filters_hold() {
    let o = Options { count: 100, mode: Some("cook".into()), max_minutes: Some(25),
        budget_max_fen: Some(1200), categories: vec!["米饭".into()], ..options() };
    let r = recommend(&o).unwrap();
    assert_eq!(r.status, "partial");
    assert!(!r.items.is_empty());
    for i in r.items { assert_eq!(i.dish.category, "米饭"); assert!(i.dish.minutes_max.unwrap() <= 25); assert!(i.dish.cost_max_fen.unwrap() <= 1200); }
    let r = recommend(&Options { required_tags: vec!["不存在的口味".into()], ..options() }).unwrap();
    assert_eq!(r.status, "no_match");
    assert_eq!(r.candidate_count, 0);
}

#[test]
fn stand_in_alias_excludes_recent_dish() {
    let o = Options { count: 100, recent: vec!["西红柿炒鸡蛋".into()], ..options() };
    assert!(recommend(&o).unwrap().items.iter().all(|i| i.dish.name != "番茄炒蛋"));
}

#[test]
fn stand_in_incomplete_ingredients_fail_closed() {
    let o = Options { exclude_ingredients: vec!["花生".into()], ..options() };
    assert_eq!(recommend(&o).unwrap().status, "no_match");
    let r = recommend(&Options { count: 100, require_complete_ingredients: false, ..o }).unwrap();
    assert!(!r.items.is_empty());
    assert!(!r.warnings.is_empty());
    assert!(r.items.iter().all(|i| !i.dish.ingredients.contains(&"花生".to_string())));
}

#[test]
fn stand_in_custom_catalog_unknown_minutes() {
    let mut c = catalog(); c.dishes.truncate(1); c.dishes[0].minutes_max = None;
    let o = Options { catalog: Some(c), max_minutes: Some(1000), ..options() };
    assert_eq!(recommend(&o).unwrap().status, "no_match");
}

#[test]
fn stand_in_duplicate_alias_and_unknown_source() {
    let mut c = catalog(); let first_name = c.dishes[0].name.clone(); c.dishes[1].aliases.push(first_name);
    assert!(c.validate().is_err());
    let mut c = catalog(); c.dishes[0].sources = vec!["missing".into()];
    assert!(c.validate().is_err());
}

#[test]
fn stand_in_invalid_requests() {
    assert!(recommend(&Options { count: 0, ..options() }).is_err());
    assert!(recommend(&Options { count: 101, ..options() }).is_err());
    assert!(recommend(&Options { budget_max_fen: Some(1000), ..options() }).is_err());
}

#[test]
fn stand_in_dish_subset_stays_valid() {
    let mut c = catalog();
    assert!(c.validate().is_ok());
    c.dishes.retain(|d| d.id.ends_with('1') || d.id.ends_with('3'));
    c.dishes.reverse();
    assert!(c.validate().is_ok());
}

#[test]
fn stand_in_request_seed_is_kept() {
    let o = Options { count: 2, ..options() };
    let c = catalog();
    let mut s = Session::start(&o, &c).unwrap();
    while s.is_due() {
        s.pick(0);
    }
    assert_eq!(s.finish(999).seed, 42);
    assert_eq!(eatwhat::seed_for(&o, 999), 42);
    assert_eq!(eatwhat::seed_for(&Options::default(), 999), 999);
}

#[test]
fn stand_in_dish_order_irrelevant() {
    let c = catalog(); let mut reversed = c.clone(); reversed.dishes.reverse();
    let a = recommend(&Options { catalog: Some(c), count: 10, ..options() }).unwrap();
    let b = recommend(&Options { catalog: Some(reversed), count: 10, ..options() }).unwrap();
    assert_eq!(a, b);
}

#[test]
fn stand_in_no_state_between_requests() {
    let a = recommend(&options()).unwrap();
    let _ = recommend(&Options { recent: vec![a.items[0].dish.id.clone()], ..options() });
    assert_eq!(a, recommend(&options()).unwrap());
}

#[test]
fn stand_in_every_strategy_keeps_filters() {
    for strategy in [Strategy::Uniform, Strategy::Balanced, Strategy::Comfort, Strategy::Explore, Strategy::Surprise] {
        let r = recommend(&Options { strategy, count: 100, theme: Some("quick_meal".into()), ..options() }).unwrap();
        assert!(!r.items.is_empty());
        assert!(r.items.iter().all(|i| i.dish.themes.contains(&"quick_meal".to_string())));
    }
}

