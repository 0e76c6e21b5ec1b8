//! Catalogs: their validity and the lookup of a dish by id, name or alias.
use vstd::prelude::*;

use crate::model::{Dish, Error, Source};
use crate::text::{is_label, nonempty, norm, normalized};

verus! {

/// A versioned data pack of dishes and the sources they cite.
#[derive(Debug, Clone, PartialEq)]
pub struct Catalog {
    pub schema_version: u32,
    pub id: String,
    pub version: String,
    pub sources: Vec<Source>,
    pub dishes: Vec<Dish>,
}

/// Whether `bits` encodes an IEEE-754 binary64 number that is finite and lies
/// in [0, 1]. Non-negative finite numbers are ordered as their bit patterns,
/// 1.0 is `0x3FF0_0000_0000_0000`, and -0.0 (the sign bit alone) equals 0.0.
pub open spec fn unit_interval(bits: u64) -> bool {
    bits <= 0x3FF0_0000_0000_0000u64 || bits == 0x8000_0000_0000_0000u64
}

/// Whether every label of the list carries something besides whitespace.
pub open spec fn all_labels(v: Seq<String>) -> bool {
    forall|i: int| 0 <= i < v.len() ==> is_label(#[trigger] v[i]@)
}

/// The catalog's header: schema version 1 and a non-empty id and version.
pub open spec fn header_valid(c: Catalog) -> bool {
    &&& c.schema_version == 1
    &&& is_label(c.id@)
    &&& is_label(c.version@)
}

/// Source `k` has all four fields and an id that no earlier source has.
pub open spec fn source_ok(sources: Seq<Source>, k: int) -> bool {
    let s = sources[k];
    &&& is_label(s.id@)
    &&& is_label(s.title@)
    &&& is_label(s.license@)
    &&& is_label(s.reference@)
    &&& forall|j: int| 0 <= j < k ==> (#[trigger] sources[j]).id@ != s.id@
}

/// Whether a source of the catalog has this id.
pub open spec fn cites(c: Catalog, id: Seq<char>) -> bool {
    exists|j: int| 0 <= j < c.sources@.len() && (#[trigger] c.sources@[j]).id@ == id
}

/// The scalar fields of dish `k`: a non-empty id, name and category; an id
/// that no earlier dish has; a familiarity in [0, 1]; at least one source, each
/// one cited by the catalog; and a listed ingredient if the list claims to be
/// complete.
pub open spec fn dish_fields_ok(c: Catalog, k: int) -> bool {
    let d = c.dishes@[k];
    &&& is_label(d.id@)
    &&& is_label(d.name@)
    &&& is_label(d.category@)
    &&& forall|j: int| 0 <= j < k ==> (#[trigger] c.dishes@[j]).id@ != d.id@
    &&& unit_interval(d.familiarity_bits)
    &&& d.sources@.len() > 0
    &&& forall|i: int| 0 <= i < d.sources@.len() ==> cites(c, #[trigger] d.sources@[i]@)
    &&& d.ingredients_complete ==> d.ingredients@.len() > 0
}

/// Every label list of the dish holds only non-empty labels.
pub open spec fn dish_labels_ok(d: Dish) -> bool {
    &&& all_labels(d.aliases@)
    &&& all_labels(d.regions@)
    &&& all_labels(d.tags@)
    &&& all_labels(d.ingredients@)
    &&& all_labels(d.meals@)
    &&& all_labels(d.modes@)
    &&& all_labels(d.themes@)
}

/// The names a dish answers to, in the order they are checked: its name, its
/// aliases, its id.
pub open spec fn names_of(d: Dish) -> Seq<Seq<char>> {
    seq![d.name@] + d.aliases@.map_values(|a: String| a@) + seq![d.id@]
}

/// Whether one of the dish's names normalises to `key`.
pub open spec fn claims(d: Dish, key: Seq<char>) -> bool {
    exists|n: int| 0 <= n < names_of(d).len() && normalized(#[trigger] names_of(d)[n]) == key
}

/// Whether a dish before dish `k` claims `key`.
pub open spec fn claimed_before(c: Catalog, k: int, key: Seq<char>) -> bool {
    exists|j: int| 0 <= j < k && claims(#[trigger] c.dishes@[j], key)
}

/// Whether name `n` of dish `k` is claimed by an earlier dish.
pub open spec fn clashes(c: Catalog, k: int, n: int) -> bool {
    claimed_before(c, k, normalized(names_of(c.dishes@[k])[n]))
}

/// Whether one of the strings has the characters `key`.
pub open spec fn listed(keys: Seq<String>, key: Seq<char>) -> bool {
    exists|i: int| 0 <= i < keys.len() && (#[trigger] keys[i])@ == key
}

/// Whether no name of dish `k` is claimed by an earlier dish.
pub open spec fn names_clear(c: Catalog, k: int) -> bool {
    forall|n: int| 0 <= n < names_of(c.dishes@[k]).len() ==> !clashes(c, k, n)
}

/// Dish `k` passes every check.
pub open spec fn dish_ok(c: Catalog, k: int) -> bool {
    &&& dish_fields_ok(c, k)
    &&& dish_labels_ok(c.dishes@[k])
    &&& names_clear(c, k)
}

/// A valid catalog: a good header, well-formed sources with distinct ids, and
/// dishes that pass every check, so that ids are distinct and no two dishes
/// answer to the same normalised name, alias or id.
pub open spec fn catalog_valid(c: Catalog) -> bool {
    &&& header_valid(c)
    &&& forall|k: int| 0 <= k < c.sources@.len() ==> source_ok(c.sources@, k)
    &&& forall|k: int| 0 <= k < c.dishes@.len() ==> dish_ok(c, k)
}

/// The message for the first failing check of dish `k`, given that name `n`
/// is its first name that clashes when only the names are at fault.
pub open spec fn dish_fault(c: Catalog, k: int, n: int) -> Seq<char> {
    let d = c.dishes@[k];
    if !dish_fields_ok(c, k) {
        "invalid dish: "@ + d.id@
    } else if !dish_labels_ok(d) {
        "empty label in "@ + d.id@
    } else {
        "ambiguous name/alias/id: "@ + names_of(d)[n]
    }
}

/// Whether `m` is the message for the first check that the catalog fails:
/// the header, then the sources, then dish by dish its fields, its labels and
/// its first name that an earlier dish already claims.
pub open spec fn explains(c: Catalog, m: Seq<char>) -> bool {
    if !header_valid(c) {
        m == "invalid catalog header (schema_version must be 1)"@
    } else if exists|k: int| 0 <= k < c.sources@.len() && !source_ok(c.sources@, k) {
        m == "invalid or duplicate source"@
    } else {
        exists|k: int, n: int|
            {
                &&& 0 <= k < c.dishes@.len()
                &&& forall|j: int| 0 <= j < k ==> dish_ok(c, j)
                &&& !dish_ok(c, k)
                &&& 0 <= n < names_of(c.dishes@[k]).len()
                &&& forall|p: int| 0 <= p < n ==> !clashes(c, k, p)
                &&& dish_fields_ok(c, k) && dish_labels_ok(c.dishes@[k]) ==> clashes(c, k, n)
                &&& m == #[trigger] dish_fault(c, k, n)
            }
    }
}

/// Whether the dish answers to `query`: its id, name or one of its aliases
/// normalises to the same key.
pub open spec fn answers_to(d: Dish, query: Seq<char>) -> bool {
    ||| normalized(d.id@) == normalized(query)
    ||| normalized(d.name@) == normalized(query)
    ||| exists|a: int| 0 <= a < d.aliases@.len() && normalized(#[trigger] d.aliases@[a]@) == normalized(query)
}

/// The position of the first dish, in catalog order, that answers to `query`.
pub open spec fn first_answer(c: Catalog, query: Seq<char>) -> Option<int> {
    if exists|i: int|
        0 <= i < c.dishes@.len() && answers_to(c.dishes@[i], query) && forall|j: int|
            0 <= j < i ==> !answers_to(#[trigger] c.dishes@[j], query) {
        Some(
            choose|i: int|
                0 <= i < c.dishes@.len() && answers_to(c.dishes@[i], query) && forall|j: int|
                    0 <= j < i ==> !answers_to(#[trigger] c.dishes@[j], query),
        )
    } else {
        None
    }
}

/// An error whose message is `prefix` followed by `detail`.
fn fail(prefix: &str, detail: &str) -> (e: Error)
    ensures
        e.0@ == prefix@ + detail@,
{
    let mut m = String::from_str(prefix);
    m.append(detail);
    Error(m)
}

fn all_labels_exec(v: &Vec<String>) -> (b: bool)
    ensures
        b == all_labels(v@),
{
    let mut i: usize = 0;
    while i < v.len()
        invariant
            i <= v@.len(),
            forall|j: int| 0 <= j < i ==> is_label(#[trigger] v@[j]@),
        decreases v@.len() - i,
    {
        if !nonempty(v[i].as_str()) {
            return false;
        }
        i = i + 1;
    }
    true
}

pub(crate) fn contains_key(keys: &Vec<String>, key: &String) -> (b: bool)
    ensures
        b == exists|i: int| 0 <= i < keys@.len() && (#[trigger] keys@[i])@ == key@,
{
    let mut i: usize = 0;
    while i < keys.len()
        invariant
            i <= keys@.len(),
            forall|j: int| 0 <= j < i ==> (#[trigger] keys@[j])@ != key@,
        decreases keys@.len() - i,
    {
        if keys[i] == *key {
            return true;
        }
        i = i + 1;
    }
    false
}

impl Catalog {
    fn source_ok_exec(&self, k: usize) -> (b: bool)
        requires
            k < self.sources@.len(),
        ensures
            b == source_ok(self.sources@, k as int),
    {
        let s = &self.sources[k];
        if !nonempty(s.id.as_str()) || !nonempty(s.title.as_str()) || !nonempty(s.license.as_str())
            || !nonempty(s.reference.as_str()) {
            return false;
        }
        let mut j: usize = 0;
        while j < k
            invariant
                j <= k < self.sources@.len(),
                s == self.sources@[k as int],
                forall|i: int| 0 <= i < j ==> (#[trigger] self.sources@[i]).id@ != s.id@,
            decreases k - j,
        {
            if self.sources[j].id == s.id {
                return false;
            }
            j = j + 1;
        }
        true
    }

    fn cites_exec(&self, id: &String) -> (b: bool)
        ensures
            b == cites(*self, id@),
    {
        let mut j: usize = 0;
        while j < self.sources.len()
            invariant
                j <= self.sources@.len(),
                forall|i: int| 0 <= i < j ==> (#[trigger] self.sources@[i]).id@ != id@,
            decreases self.sources@.len() - j,
        {
            if self.sources[j].id == *id {
                return true;
            }
            j = j + 1;
        }
        false
    }

    /// Whether dish `k` answers to the normalised key `key`.
    fn answers_exec(&self, k: usize, key: &String) -> (b: bool)
        requires
            k < self.dishes@.len(),
        ensures
            b == (normalized(self.dishes@[k as int].id@) == key@ || normalized(
                self.dishes@[k as int].name@,
            ) == key@ || exists|a: int|
                0 <= a < self.dishes@[k as int].aliases@.len() && normalized(
                    #[trigger] self.dishes@[k as int].aliases@[a]@,
                ) == key@),
    {
        let d = &self.dishes[k];
        if norm(d.id.as_str()) == *key || norm(d.name.as_str()) == *key {
            return true;
        }
        let mut a: usize = 0;
        while a < d.aliases.len()
            invariant
                a <= d.aliases@.len(),
                d == self.dishes@[k as int],
                forall|m: int| 0 <= m < a ==> normalized(#[trigger] d.aliases@[m]@) != key@,
            decreases d.aliases@.len() - a,
        {
            if norm(d.aliases[a].as_str()) == *key {
                return true;
            }
            a = a + 1;
        }
        false
    }

    /// The position of the first dish, in catalog order, that answers to
    /// `query` by id, name or alias after normalisation.
    pub fn resolve_index(&self, query: &str) -> (r: Option<usize>)
        ensures
            match r {
                Some(i) => {
                    &&& i < self.dishes@.len()
                    &&& answers_to(self.dishes@[i as int], query@)
                    &&& forall|j: int| 0 <= j < i ==> !answers_to(#[trigger] self.dishes@[j], query@)
                },
                None => forall|j: int|
                    0 <= j < self.dishes@.len() ==> !answers_to(#[trigger] self.dishes@[j], query@),
            },
            match r {
                Some(i) => first_answer(*self, query@) == Some(i as int),
                None => first_answer(*self, query@) is None,
            },
    {
        let key = norm(query);
        let mut k: usize = 0;
        while k < self.dishes.len()
            invariant
                k <= self.dishes@.len(),
                key@ == normalized(query@),
                forall|j: int| 0 <= j < k ==> !answers_to(#[trigger] self.dishes@[j], query@),
            decreases self.dishes@.len() - k,
        {
            if self.answers_exec(k, &key) {
                proof {
                    let j = choose|i: int|
                        0 <= i < self.dishes@.len() && answers_to(self.dishes@[i], query@) && forall|
                            j: int,
                        | 0 <= j < i ==> !answers_to(#[trigger] self.dishes@[j], query@);
                    // Both `k` and `j` are the first answering position.
                    assert(!(j < k) && !(k < j));
                }
                return Some(k);
            }
            k = k + 1;
        }
        None
    }

    /// The first dish, in catalog order, that answers to `query` by id, name or
    /// alias after normalisation.
    pub fn resolve(&self, query: &str) -> (r: Option<&Dish>)
        ensures
            r is Some <==> exists|i: int|
                0 <= i < self.dishes@.len() && answers_to(#[trigger] self.dishes@[i], query@),
            r matches Some(d) ==> exists|i: int|
                {
                    &&& 0 <= i < self.dishes@.len()
                    &&& *d == self.dishes@[i]
                    &&& answers_to(self.dishes@[i], query@)
                    &&& forall|j: int| 0 <= j < i ==> !answers_to(#[trigger] self.dishes@[j], query@)
                },
    {
        match self.resolve_index(query) {
            Some(i) => Some(&self.dishes[i]),
            None => None,
        }
    }

    /// Checks the next name of dish `k`, whose earlier names are normalised
    /// in `mine`, against the keys of the dishes before it; if it is clear,
    /// adds its key to `mine`.
    fn take_name(&self, keys: &Vec<String>, k: usize, name: &String, mine: &mut Vec<String>) -> (ok: bool)
        requires
            k < self.dishes@.len(),
            old(mine)@.len() < names_of(self.dishes@[k as int]).len(),
            name@ == names_of(self.dishes@[k as int])[old(mine)@.len() as int],
            forall|key: Seq<char>|
                #![trigger listed(keys@, key)]
                #![trigger claimed_before(*self, k as int, key)]
                listed(keys@, key) <==> claimed_before(*self, k as int, key),
        ensures
            ok == !clashes(*self, k as int, old(mine)@.len() as int),
            ok ==> final(mine)@.len() == old(mine)@.len() + 1,
            ok ==> forall|i: int| 0 <= i < old(mine)@.len() ==> #[trigger] final(mine)@[i] == old(mine)@[i],
            ok ==> final(mine)@[old(mine)@.len() as int]@ == normalized(name@),
            !ok ==> final(mine)@ == old(mine)@,
    {
        let key = norm(name.as_str());
        if contains_key(keys, &key) {
            return false;
        }
        mine.push(key);
        true
    }

    /// The error for name `n` of dish `k`, the first of its names that an
    /// earlier dish claims.
    fn clash_error(&self, k: usize, n: usize, name: &String) -> (e: Error)
        requires
            k < self.dishes@.len(),
            dish_fields_ok(*self, k as int),
            dish_labels_ok(self.dishes@[k as int]),
            n < names_of(self.dishes@[k as int]).len(),
            name@ == names_of(self.dishes@[k as int])[n as int],
            clashes(*self, k as int, n as int),
        ensures
            e.0@ == dish_fault(*self, k as int, n as int),
            !dish_ok(*self, k as int),
    {
        fail("ambiguous name/alias/id: ", name.as_str())
    }

    fn dish_fields_ok_exec(&self, k: usize) -> (b: bool)
        requires
            k < self.dishes@.len(),
        ensures
            b == dish_fields_ok(*self, k as int),
    {
        let d = &self.dishes[k];
        if !nonempty(d.id.as_str()) || !nonempty(d.name.as_str()) || !nonempty(d.category.as_str()) {
            return false;
        }
        let mut j: usize = 0;
        while j < k
            invariant
                j <= k < self.dishes@.len(),
                d == self.dishes@[k as int],
                forall|i: int| 0 <= i < j ==> (#[trigger] self.dishes@[i]).id@ != d.id@,
            decreases k - j,
        {
            if self.dishes[j].id == d.id {
                return false;
            }
            j = j + 1;
        }
        if !(d.familiarity_bits <= 0x3FF0_0000_0000_0000u64 || d.familiarity_bits
            == 0x8000_0000_0000_0000u64) {
            return false;
        }
        if d.sources.len() == 0 {
            return false;
        }
        let mut i: usize = 0;
        while i < d.sources.len()
            invariant
                i <= d.sources@.len(),
                d == self.dishes@[k as int],
                forall|m: int| 0 <= m < i ==> cites(*self, #[trigger] d.sources@[m]@),
            decreases d.sources@.len() - i,
        {
            if !self.cites_exec(&d.sources[i]) {
                return false;
            }
            i = i + 1;
        }
        !(d.ingredients_complete && d.ingredients.len() == 0)
    }

    /// Checks the catalog: a header with schema version 1 and a non-empty id
    /// and version; sources with every field and distinct ids; dishes with a
    /// non-empty id, name and category, distinct ids, a familiarity in [0, 1],
    /// only cited sources, no empty label, and names, aliases and ids that no
    /// two dishes share after normalisation. The first failing check, in that
    /// order and dish by dish, gives the error.
    pub fn validate(&self) -> (r: Result<(), Error>)
        ensures
            r is Ok <==> catalog_valid(*self),
            r matches Err(e) ==> explains(*self, e.0@),
    {
        if !(self.schema_version == 1 && nonempty(self.id.as_str()) && nonempty(
            self.version.as_str(),
        )) {
            return Err(Error(String::from_str("invalid catalog header (schema_version must be 1)")));
        }
        let mut k: usize = 0;
        while k < self.sources.len()
            invariant
                header_valid(*self),
                k <= self.sources@.len(),
                forall|j: int| 0 <= j < k ==> source_ok(self.sources@, j),
            decreases self.sources@.len() - k,
        {
            if !self.source_ok_exec(k) {
                return Err(Error(String::from_str("invalid or duplicate source")));
            }
            k = k + 1;
        }
        let mut keys: Vec<String> = Vec::new();
        let mut k: usize = 0;
        while k < self.dishes.len()
            invariant
                header_valid(*self),
                forall|j: int| 0 <= j < self.sources@.len() ==> source_ok(self.sources@, j),
                k <= self.dishes@.len(),
                forall|j: int| 0 <= j < k ==> dish_ok(*self, j),
                forall|key: Seq<char>|
                    #![trigger listed(keys@, key)]
                    #![trigger claimed_before(*self, k as int, key)]
                    listed(keys@, key) <==> claimed_before(*self, k as int, key),
            decreases self.dishes@.len() - k,
        {
            let d = &self.dishes[k];
            if !self.dish_fields_ok_exec(k) {
                let e = fail("invalid dish: ", d.id.as_str());
                assert(e.0@ == dish_fault(*self, k as int, 0));
                assert(!dish_ok(*self, k as int));
                return Err(e);
            }
            if !(all_labels_exec(&d.aliases) && all_labels_exec(&d.regions) && all_labels_exec(
                &d.tags,
            ) && all_labels_exec(&d.ingredients) && all_labels_exec(&d.meals) && all_labels_exec(
                &d.modes,
            ) && all_labels_exec(&d.themes)) {
                let e = fail("empty label in ", d.id.as_str());
                assert(e.0@ == dish_fault(*self, k as int, 0));
                assert(!dish_ok(*self, k as int));
                return Err(e);
            }
            let ghost names = names_of(*d);
            let mut mine: Vec<String> = Vec::new();
            if !self.take_name(&keys, k, &d.name, &mut mine) {
                return Err(self.clash_error(k, 0, &d.name));
            }
            let mut a: usize = 0;
            while a < d.aliases.len()
                invariant
                    header_valid(*self),
                    forall|j: int| 0 <= j < self.sources@.len() ==> source_ok(self.sources@, j),
                    forall|j: int| 0 <= j < k ==> dish_ok(*self, j),
                    dish_fields_ok(*self, k as int),
                    dish_labels_ok(self.dishes@[k as int]),
                    d == self.dishes@[k as int],
                    k < self.dishes@.len(),
                    names == names_of(*d),
                    a <= d.aliases@.len(),
                    mine@.len() == a + 1,
                    forall|i: int| 0 <= i < mine@.len() ==> (#[trigger] mine@[i])@ == normalized(names[i]),
                    forall|m: int| 0 <= m < mine@.len() ==> !clashes(*self, k as int, m),
                    forall|key: Seq<char>|
                        #![trigger listed(keys@, key)]
                        #![trigger claimed_before(*self, k as int, key)]
                        listed(keys@, key) <==> claimed_before(*self, k as int, key),
                decreases d.aliases@.len() - a,
            {
                assert(names[a + 1] == d.aliases@[a as int]@);
                let ghost prev = mine@;
                if !self.take_name(&keys, k, &d.aliases[a], &mut mine) {
                    return Err(self.clash_error(k, a + 1, &d.aliases[a]));
                }
                assert forall|i: int| 0 <= i < mine@.len() implies (#[trigger] mine@[i])@ == normalized(names[i]) by {
                    if i < prev.len() {
                        assert(mine@[i] == prev[i]);
                    }
                }
                a = a + 1;
            }
            assert(names[names.len() - 1] == d.id@);
            let ghost prev = mine@;
            if !self.take_name(&keys, k, &d.id, &mut mine) {
                return Err(self.clash_error(k, mine.len(), &d.id));
            }
            assert(mine@.len() == names.len());
            assert forall|i: int| 0 <= i < mine@.len() implies (#[trigger] mine@[i])@ == normalized(names[i]) by {
                if i < prev.len() {
                    assert(mine@[i] == prev[i]);
                }
            }
            let ghost before = keys@;
            let ghost added = mine@;
            keys.append(&mut mine);
            proof {
                assert forall|key: Seq<char>|
                    #![trigger listed(keys@, key)]
                    #![trigger claimed_before(*self, k + 1, key)]
                    listed(keys@, key) <==> claimed_before(*self, k + 1, key) by {
                    if listed(keys@, key) {
                        let i = choose|i: int| 0 <= i < keys@.len() && (#[trigger] keys@[i])@ == key;
                        if i < before.len() {
                            assert(before[i] == keys@[i]);
                            assert(listed(before, key));
                            assert(claimed_before(*self, k as int, key));
                            let j = choose|j: int| 0 <= j < k && claims(#[trigger] self.dishes@[j], key);
                            assert(claims(self.dishes@[j], key));
                        } else {
                            let m = i - before.len();
                            assert(keys@[i] == added[m]);
                            assert(normalized(names[m]) == key);
                            assert(claims(self.dishes@[k as int], key));
                        }
                    }
                    if claimed_before(*self, k + 1, key) {
                        let j = choose|j: int| 0 <= j < k + 1 && claims(#[trigger] self.dishes@[j], key);
                        if j < k {
                            assert(claimed_before(*self, k as int, key));
                            assert(listed(before, key));
                            let i = choose|i: int| 0 <= i < before.len() && (#[trigger] before[i])@ == key;
                            assert(keys@[i] == before[i]);
                        } else {
                            let m = choose|m: int| 0 <= m < names.len() && normalized(#[trigger] names[m]) == key;
                            assert(keys@[before.len() + m] == added[m]);
                        }
                    }
                }
            }
            k = k + 1;
        }
        Ok(())
    }
}

/// A dish answers to a query exactly when it claims the query's key.
pub proof fn lemma_answers_to_claims(d: Dish, query: Seq<char>)
    ensures
        answers_to(d, query) <==> claims(d, normalized(query)),
{
    let names = names_of(d);
    let key = normalized(query);
    assert(names[0] == d.name@);
    assert(names[names.len() - 1] == d.id@);
    if answers_to(d, query) {
        if normalized(d.id@) == key {
            assert(normalized(names[names.len() - 1]) == key);
        } else if normalized(d.name@) == key {
            assert(normalized(names[0]) == key);
        } else {
            let a = choose|a: int| 0 <= a < d.aliases@.len() && normalized(#[trigger] d.aliases@[a]@) == key;
            assert(names[a + 1] == d.aliases@[a]@);
            assert(normalized(names[a + 1]) == key);
        }
    }
    if claims(d, key) {
        let n = choose|n: int| 0 <= n < names.len() && normalized(#[trigger] names[n]) == key;
        if 0 < n < names.len() - 1 {
            assert(names[n] == d.aliases@[n - 1]@);
        }
    }
}

/// In a valid catalog no two dishes answer to the same query: names, aliases
/// and ids identify at most one dish.
pub proof fn lemma_valid_answers_unique(c: Catalog, query: Seq<char>, i: int, j: int)
    requires
        catalog_valid(c),
        0 <= i < c.dishes@.len(),
        0 <= j < c.dishes@.len(),
        answers_to(c.dishes@[i], query),
        answers_to(c.dishes@[j], query),
    ensures
        i == j,
{
    lemma_answers_to_claims(c.dishes@[i], query);
    lemma_answers_to_claims(c.dishes@[j], query);
    let key = normalized(query);
    if i != j {
        let (lo, hi) = if i < j { (i, j) } else { (j, i) };
        let names = names_of(c.dishes@[hi]);
        let n = choose|n: int| 0 <= n < names.len() && normalized(#[trigger] names[n]) == key;
        assert(dish_ok(c, hi));
        assert(!clashes(c, hi, n));
        assert(claims(c.dishes@[lo], key));
        assert(claimed_before(c, hi, key));
    }
}

} // verus!
