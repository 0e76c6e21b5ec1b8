//! The records the library reads and returns.
use vstd::prelude::*;

use crate::catalog::Catalog;

verus! {

/// A refused catalog or request, with a message saying why.
#[derive(Debug, Clone, PartialEq, Eq)]
pub struct Error(pub String);

impl Error {
    /// The message of the error.
    pub fn message(&self) -> (m: String)
        ensures
            m@ == self.0@,
    {
        self.0.clone()
    }
}

/// Where the data of a dish comes from.
#[derive(Debug, Clone, PartialEq)]
pub struct Source {
    pub id: String,
    pub title: String,
    pub license: String,
    pub reference: String,
}

/// One dish of a catalog.
#[derive(Debug, Clone, PartialEq)]
pub struct Dish {
    pub id: String,
    pub name: String,
    pub aliases: Vec<String>,
    /// Exactly one primary sampling category prevents double counting.
    pub category: String,
    pub regions: Vec<String>,
    pub tags: Vec<String>,
    pub ingredients: Vec<String>,
    pub ingredients_complete: bool,
    pub meals: Vec<String>,
    pub modes: Vec<String>,
    pub themes: Vec<String>,
    /// Conservative upper estimate; unknown is excluded when a time limit is supplied.
    pub minutes_max: Option<u32>,
    /// Ingredient cost per serving in CNY fen, not a restaurant price.
    pub cost_max_fen: Option<u32>,
    /// Editorial familiarity prior in [0,1], not observed popularity, held as
    /// the bit pattern of an IEEE-754 binary64 number.
    pub familiarity_bits: u64,
    pub sources: Vec<String>,
}

/// How a recommendation is drawn from the candidates.
#[derive(Debug, Clone, Copy, PartialEq, Eq, Structural)]
pub enum Strategy {
    Uniform,
    Balanced,
    Comfort,
    Explore,
    Surprise,
}

impl Default for Strategy {
    fn default() -> (s: Self)
        ensures
            s == Strategy::Balanced,
    {
        Strategy::Balanced
    }
}

/// A recommendation request.
#[derive(Debug, Clone)]
pub struct Options {
    pub count: usize,
    pub seed: Option<u64>,
    pub strategy: Strategy,
    pub categories: Vec<String>,
    pub regions: Vec<String>,
    pub meal: Option<String>,
    pub mode: Option<String>,
    pub theme: Option<String>,
    pub max_minutes: Option<u32>,
    pub budget_max_fen: Option<u32>,
    pub exclude_ingredients: Vec<String>,
    /// Fail closed on incomplete ingredient lists when excluding ingredients.
    pub require_complete_ingredients: bool,
    pub required_tags: Vec<String>,
    pub preferences: Vec<String>,
    /// IDs, names or aliases. Earlier positions are more recent.
    pub recent: Vec<String>,
    pub exclude_recent: bool,
    /// Replaces the built-in pack. None selects the built-in catalog.
    pub catalog: Option<Catalog>,
}

impl Default for Options {
    fn default() -> (o: Self)
        ensures
            o.count == 1,
            o.seed is None,
            o.strategy == Strategy::Balanced,
            o.categories@.len() == 0,
            o.regions@.len() == 0,
            o.meal is None,
            o.mode is None,
            o.theme is None,
            o.max_minutes is None,
            o.budget_max_fen is None,
            o.exclude_ingredients@.len() == 0,
            o.require_complete_ingredients,
            o.required_tags@.len() == 0,
            o.preferences@.len() == 0,
            o.recent@.len() == 0,
            o.exclude_recent,
            o.catalog is None,
    {
        Options {
            count: 1,
            seed: None,
            strategy: Strategy::Balanced,
            categories: Vec::new(),
            regions: Vec::new(),
            meal: None,
            mode: None,
            theme: None,
            max_minutes: None,
            budget_max_fen: None,
            exclude_ingredients: Vec::new(),
            require_complete_ingredients: true,
            required_tags: Vec::new(),
            preferences: Vec::new(),
            recent: Vec::new(),
            exclude_recent: true,
            catalog: None,
        }
    }
}

/// One recommended dish, with the rule-based reasons it was picked.
#[derive(Debug, Clone, PartialEq)]
pub struct Recommendation {
    pub dish: Dish,
    pub reason_codes: Vec<String>,
}

/// The answer to a request.
#[derive(Debug, Clone, PartialEq)]
pub struct Response {
    pub items: Vec<Recommendation>,
    pub status: String,
    pub candidate_count: usize,
    pub requested_count: usize,
    pub seed: u64,
    pub dataset_id: String,
    pub dataset_version: String,
    pub algorithm_version: String,
    pub warnings: Vec<String>,
}

} // verus!
