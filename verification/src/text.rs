//! Label normalisation: the trim-and-lowercase comparison every match uses.
use vstd::prelude::*;

verus! {

/// Whether `c` has the Unicode `White_Space` property, the property by which
/// `str::trim` decides what it removes: tab, line feed, vertical tab, form
/// feed, carriage return, space, next line, no-break space, ogham space mark,
/// the spaces U+2000 to U+200A, line separator, paragraph separator, narrow
/// no-break space, medium mathematical space and ideographic space.
pub open spec fn white_space(c: char) -> bool {
    let u = c as u32;
    ||| 0x09 <= u <= 0x0D
    ||| u == 0x20
    ||| u == 0x85
    ||| u == 0xA0
    ||| u == 0x1680
    ||| 0x2000 <= u <= 0x200A
    ||| u == 0x2028
    ||| u == 0x2029
    ||| u == 0x202F
    ||| u == 0x205F
    ||| u == 0x3000
}

/// What `str::to_lowercase` returns for a string with these characters.
pub uninterp spec fn lowercase(s: Seq<char>) -> Seq<char>;

/// `s` without its leading whitespace.
pub open spec fn trim_start(s: Seq<char>) -> Seq<char>
    decreases s.len(),
{
    if s.len() > 0 && white_space(s[0]) {
        trim_start(s.drop_first())
    } else {
        s
    }
}

/// `s` without its trailing whitespace.
pub open spec fn trim_end(s: Seq<char>) -> Seq<char>
    decreases s.len(),
{
    if s.len() > 0 && white_space(s.last()) {
        trim_end(s.drop_last())
    } else {
        s
    }
}

/// `s` without leading and trailing whitespace.
pub open spec fn trimmed(s: Seq<char>) -> Seq<char> {
    trim_end(trim_start(s))
}

/// The key under which labels are compared: trimmed, then lowercased.
pub open spec fn normalized(s: Seq<char>) -> Seq<char> {
    lowercase(trimmed(s))
}

/// Whether a label carries anything besides whitespace.
pub open spec fn is_label(s: Seq<char>) -> bool {
    trimmed(s).len() > 0
}

/// `str::trim_start`: the slice without its leading characters that have
/// the Unicode `White_Space` property, so a suffix of `s` that does not start
/// with such a character.
#[verifier::external_body]
fn str_trim_start(s: &str) -> (r: &str)
    ensures
        r@.len() <= s@.len(),
        r@ == s@.subrange(s@.len() - r@.len(), s@.len() as int),
        forall|k: int| 0 <= k < s@.len() - r@.len() ==> white_space(#[trigger] s@[k]),
        r@.len() > 0 ==> !white_space(r@[0]),
{
    s.trim_start()
}

/// `str::trim_end`: the slice without its trailing characters that have the
/// Unicode `White_Space` property, so a prefix of `s` that does not end with
/// such a character.
#[verifier::external_body]
fn str_trim_end(s: &str) -> (r: &str)
    ensures
        r@.len() <= s@.len(),
        r@ == s@.subrange(0, r@.len() as int),
        forall|k: int| r@.len() <= k < s@.len() ==> white_space(#[trigger] s@[k]),
        r@.len() > 0 ==> !white_space(r@.last()),
{
    s.trim_end()
}

proof fn lemma_trim_start(s: Seq<char>, i: int)
    requires
        0 <= i <= s.len(),
        forall|k: int| 0 <= k < i ==> white_space(#[trigger] s[k]),
        i < s.len() ==> !white_space(s[i]),
    ensures
        trim_start(s) == s.subrange(i, s.len() as int),
    decreases i,
{
    if i == 0 {
        assert(s.subrange(0, s.len() as int) =~= s);
    } else {
        assert(white_space(s[0]));
        let t = s.drop_first();
        assert forall|k: int| 0 <= k < i - 1 implies white_space(#[trigger] t[k]) by {
            assert(t[k] == s[k + 1]);
        }
        lemma_trim_start(t, i - 1);
        assert(t.subrange(i - 1, t.len() as int) =~= s.subrange(i, s.len() as int));
    }
}

proof fn lemma_trim_end(s: Seq<char>, j: int)
    requires
        0 <= j <= s.len(),
        forall|k: int| j <= k < s.len() ==> white_space(#[trigger] s[k]),
        j > 0 ==> !white_space(s[j - 1]),
    ensures
        trim_end(s) == s.subrange(0, j),
    decreases s.len() - j,
{
    if j == s.len() {
        assert(s.subrange(0, j) =~= s);
    } else {
        assert(white_space(s.last()));
        let t = s.drop_last();
        assert forall|k: int| j <= k < t.len() implies white_space(#[trigger] t[k]) by {
            assert(t[k] == s[k]);
        }
        lemma_trim_end(t, j);
        assert(t.subrange(0, j) =~= s.subrange(0, j));
    }
}

/// Trims a label: what is left of `s` without leading and trailing whitespace.
fn trim(s: &str) -> (r: &str)
    ensures
        r@ == trimmed(s@),
{
    let a = str_trim_start(s);
    let r = str_trim_end(a);
    proof {
        let i = s@.len() - a@.len();
        if a@.len() > 0 {
            assert(a@[0] == s@[i]);
        }
        lemma_trim_start(s@, i);
        assert(a@ =~= s@.subrange(i, s@.len() as int));
        if r@.len() > 0 {
            assert(r@.last() == a@[r@.len() - 1]);
        }
        lemma_trim_end(a@, r@.len() as int);
    }
    r
}

/// `str::to_lowercase`: the lowercase equivalent of the slice, as a new
/// `String`; what that is for each character is left to the name `lowercase`.
#[verifier::external_body]
fn to_lowercase(s: &str) -> (r: String)
    ensures
        r@ == lowercase(s@),
{
    s.to_lowercase()
}

/// Normalises a label for comparison: trims it and lowercases it.
pub fn norm(s: &str) -> (r: String)
    ensures
        r@ == normalized(s@),
{
    to_lowercase(trim(s))
}

/// Whether a label holds anything besides whitespace.
pub fn nonempty(s: &str) -> (b: bool)
    ensures
        b == is_label(s@),
{
    !trim(s).is_empty()
}

/// Whether some label of `values` normalises to the same key as `value`.
pub open spec fn has_label(values: Seq<String>, value: Seq<char>) -> bool {
    exists|i: int| 0 <= i < values.len() && normalized(#[trigger] values[i]@) == normalized(value)
}

/// Whether the two label lists share a label, after normalisation.
pub open spec fn shares_label(a: Seq<String>, b: Seq<String>) -> bool {
    exists|i: int| 0 <= i < a.len() && has_label(b, #[trigger] a[i]@)
}

/// Whether `values` holds `value`, compared after normalisation.
pub fn has(values: &[String], value: &str) -> (b: bool)
    ensures
        b == has_label(values@, value@),
{
    let key = norm(value);
    let mut i: usize = 0;
    while i < values.len()
        invariant
            i <= values@.len(),
            key@ == normalized(value@),
            forall|j: int| 0 <= j < i ==> normalized(#[trigger] values@[j]@) != key@,
        decreases values@.len() - i,
    {
        let k = norm(values[i].as_str());
        if k == key {
            return true;
        }
        i = i + 1;
    }
    false
}

/// Whether the two label lists share a label, compared after normalisation.
pub fn intersects(a: &[String], b: &[String]) -> (r: bool)
    ensures
        r == shares_label(a@, b@),
{
    let mut i: usize = 0;
    while i < a.len()
        invariant
            i <= a@.len(),
            forall|j: int| 0 <= j < i ==> !has_label(b@, #[trigger] a@[j]@),
        decreases a@.len() - i,
    {
        if has(b, a[i].as_str()) {
            return true;
        }
        i = i + 1;
    }
    false
}

} // verus!
