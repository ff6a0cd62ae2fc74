//! The record type shared by the whole pipeline, and canonicalization of
//! country names so that the same country joins across years.

use vstd::prelude::*;

verus! {

/// Number of numeric features carried by every record.
pub const NUM_FEATURES: usize = 5;

/// Bound on the magnitude of any feature value accepted by the numeric
/// pipeline; gives enough headroom that sums and squared differences fit in
/// the machine integer types used below.
pub const FEATURE_LIMIT: i64 = 1_000_000_000_000;

/// One entity (a country) for one year: an identity string used as the join
/// key across years, and five fixed-point feature values.
pub struct CountryData {
    pub country: String,
    pub features: Vec<i64>,
}

impl CountryData {
    /// The features as mathematical integers.
    pub open spec fn feats(&self) -> Seq<int> {
        self.features@.map_values(|x: i64| x as int)
    }

    /// Well-formed: exactly `NUM_FEATURES` features, each within
    /// `FEATURE_LIMIT` in magnitude.
    pub open spec fn wf(&self) -> bool {
        &&& self.features@.len() == NUM_FEATURES
        &&& forall|i: int|
            0 <= i < self.features@.len() ==> -FEATURE_LIMIT
                <= #[trigger] self.features@[i] <= FEATURE_LIMIT
    }
}

impl Clone for CountryData {
    fn clone(&self) -> (r: Self)
        ensures
            r.country@ == self.country@,
            r.features@ == self.features@,
    {
        let mut fs: Vec<i64> = Vec::new();
        let mut i: usize = 0;
        while i < self.features.len()
            invariant
                i <= self.features@.len(),
                fs@ == self.features@.take(i as int),
            decreases self.features@.len() - i,
        {
            fs.push(self.features[i]);
            i = i + 1;
        }
        proof {
            assert(fs@ == self.features@.take(self.features@.len() as int));
            assert(self.features@.take(self.features@.len() as int) =~= self.features@);
        }
        CountryData { country: self.country.clone(), features: fs }
    }
}

/// What a name becomes after lowercasing: named, not spelled out, because
/// Unicode case folding is far too large to state here.
pub uninterp spec fn lower_of(s: Seq<char>) -> Seq<char>;

/// Relies on `str::to_lowercase`: the result is a function of the input
/// characters alone.
#[verifier::external_body]
fn to_lowercase_str(s: &str) -> (r: String)
    ensures
        r@ == lower_of(s@),
{
    s.to_lowercase()
}

/// What a name becomes after stripping leading and trailing whitespace:
/// named because Unicode whitespace classification is stated elsewhere.
pub uninterp spec fn trim_of(s: Seq<char>) -> Seq<char>;

/// Relies on `str::trim`: the result is a function of the input characters
/// alone.
#[verifier::external_body]
fn trim_str(s: &str) -> (r: String)
    ensures
        r@ == trim_of(s@),
{
    s.trim().to_owned()
}

/// The canonical form of a country name: lowercase it, trim it, then map the
/// known aliases onto one spelling each; any other name passes through.
pub open spec fn canonical_of(s: Seq<char>) -> Seq<char> {
    let t = trim_of(lower_of(s));
    if t == "hong kong s.a.r., china"@ || t == "hong kong s.a.r. of china"@ || t
        == "hong kong china"@ {
        "hong kong"@
    } else if t == "taiwan province of china"@ {
        "taiwan"@
    } else if t == "north macedonia"@ || t == "macedonia"@ {
        "macedonia"@
    } else if t == "trinidad & tobago"@ || t == "trinidad and tobago"@ {
        "trinidad and tobago"@
    } else if t == "somaliland region"@ || t == "somaliland"@ {
        "somaliland"@
    } else if t == "united states of america"@ {
        "united states"@
    } else {
        t
    }
}

/// Compares a string against a literal spelling.
fn eq_lit(a: &String, lit: &str) -> (r: bool)
    ensures
        r == (a@ == lit@),
{
    let s: String = lit.to_owned();
    *a == s
}

/// Rewrites a country name to its canonical spelling, so that one country is
/// written the same way in every year's data.
pub fn canonical_country_name(name: &str) -> (r: String)
    ensures
        r@ == canonical_of(name@),
{
    let lowered = to_lowercase_str(name);
    let t = trim_str(lowered.as_str());
    if eq_lit(&t, "hong kong s.a.r., china") || eq_lit(&t, "hong kong s.a.r. of china") || eq_lit(
        &t,
        "hong kong china",
    ) {
        "hong kong".to_owned()
    } else if eq_lit(&t, "taiwan province of china") {
        "taiwan".to_owned()
    } else if eq_lit(&t, "north macedonia") || eq_lit(&t, "macedonia") {
        "macedonia".to_owned()
    } else if eq_lit(&t, "trinidad & tobago") || eq_lit(&t, "trinidad and tobago") {
        "trinidad and tobago".to_owned()
    } else if eq_lit(&t, "somaliland region") || eq_lit(&t, "somaliland") {
        "somaliland".to_owned()
    } else if eq_lit(&t, "united states of america") {
        "united states".to_owned()
    } else {
        t
    }
}

} // verus!
