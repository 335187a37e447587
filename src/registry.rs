use vstd::prelude::*;
use crate::error::MatchError;
use crate::score::Order;
use crate::text::{chars_of, same_chars};

verus! {

/// The upper-case form of a string, character by character, as Unicode defines it.
pub uninterp spec fn upper_of(s: Seq<char>) -> Seq<char>;

/// Relies on `str::to_uppercase`: the Unicode upper-case mapping, which depends
/// on the characters of `s` alone.
#[verifier::external_body]
fn uppercase(s: &str) -> (r: String)
    ensures
        r@ == upper_of(s@),
{
    s.to_uppercase()
}

/// The four scoring algorithms.
#[derive(Clone, Copy, Debug, PartialEq, Eq, Structural)]
pub enum AlgorithmKind {
    Levenshtein,
    Hamming,
    Jaro,
    JaroWinkler,
}

/// The upper-case name under which each algorithm is selected.
pub open spec fn name_of(k: AlgorithmKind) -> Seq<char> {
    match k {
        AlgorithmKind::Levenshtein => seq!['L', 'E', 'V', 'E', 'N', 'S', 'H', 'T', 'E', 'I', 'N'],
        AlgorithmKind::Hamming => seq!['H', 'A', 'M', 'M', 'I', 'N', 'G'],
        AlgorithmKind::Jaro => seq!['J', 'A', 'R', 'O'],
        AlgorithmKind::JaroWinkler => seq!['J', 'A', 'R', 'O', 'W', 'I', 'N', 'K', 'L', 'E', 'R'],
    }
}

/// The algorithm whose name is `upper`, if any.
pub open spec fn kind_named(upper: Seq<char>) -> Option<AlgorithmKind> {
    if upper == name_of(AlgorithmKind::Levenshtein) {
        Some(AlgorithmKind::Levenshtein)
    } else if upper == name_of(AlgorithmKind::Hamming) {
        Some(AlgorithmKind::Hamming)
    } else if upper == name_of(AlgorithmKind::Jaro) {
        Some(AlgorithmKind::Jaro)
    } else if upper == name_of(AlgorithmKind::JaroWinkler) {
        Some(AlgorithmKind::JaroWinkler)
    } else {
        None
    }
}

/// The algorithm that a name selects, whatever its case.
pub open spec fn kind_for_name(name: Seq<char>) -> Option<AlgorithmKind> {
    kind_named(upper_of(name))
}

impl AlgorithmKind {
    pub open spec fn spec_order(self) -> Order {
        match self {
            AlgorithmKind::Levenshtein | AlgorithmKind::Hamming => Order::LowerIsBetter,
            AlgorithmKind::Jaro | AlgorithmKind::JaroWinkler => Order::HigherIsBetter,
        }
    }

    /// Distances rank ascending, similarities descending.
    pub fn order(self) -> (r: Order)
        ensures
            r == self.spec_order(),
    {
        match self {
            AlgorithmKind::Levenshtein | AlgorithmKind::Hamming => Order::LowerIsBetter,
            AlgorithmKind::Jaro | AlgorithmKind::JaroWinkler => Order::HigherIsBetter,
        }
    }

    fn name_chars(self) -> (r: Vec<char>)
        ensures
            r@ == name_of(self),
    {
        let r = match self {
            AlgorithmKind::Levenshtein => vec!['L', 'E', 'V', 'E', 'N', 'S', 'H', 'T', 'E', 'I', 'N'],
            AlgorithmKind::Hamming => vec!['H', 'A', 'M', 'M', 'I', 'N', 'G'],
            AlgorithmKind::Jaro => vec!['J', 'A', 'R', 'O'],
            AlgorithmKind::JaroWinkler => vec![
                'J',
                'A',
                'R',
                'O',
                'W',
                'I',
                'N',
                'K',
                'L',
                'E',
                'R',
            ],
        };
        proof {
            assert(r@ =~= name_of(self));
        }
        r
    }

    /// The algorithm named by an already upper-cased name.
    pub fn from_upper(upper: &str) -> (r: Option<AlgorithmKind>)
        ensures
            r == kind_named(upper@),
    {
        let u = chars_of(upper);
        if same_chars(&u, &AlgorithmKind::Levenshtein.name_chars()) {
            Some(AlgorithmKind::Levenshtein)
        } else if same_chars(&u, &AlgorithmKind::Hamming.name_chars()) {
            Some(AlgorithmKind::Hamming)
        } else if same_chars(&u, &AlgorithmKind::Jaro.name_chars()) {
            Some(AlgorithmKind::Jaro)
        } else if same_chars(&u, &AlgorithmKind::JaroWinkler.name_chars()) {
            Some(AlgorithmKind::JaroWinkler)
        } else {
            None
        }
    }

    /// The algorithm named by `name`, compared without regard to case.
    pub fn resolve(name: &str) -> (r: Result<AlgorithmKind, MatchError>)
        ensures
            r is Ok <==> kind_for_name(name@) is Some,
            r is Ok ==> r->Ok_0 == kind_for_name(name@)->Some_0,
            r is Err ==> (r->Err_0 matches MatchError::InvalidAlgorithm(s) && s@ == name@),
    {
        let upper = uppercase(name);
        match AlgorithmKind::from_upper(upper.as_str()) {
            Some(k) => Ok(k),
            None => Err(MatchError::InvalidAlgorithm(name.to_owned())),
        }
    }
}

} // verus!
