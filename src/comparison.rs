use vstd::prelude::*;
use vstd::string::StringExecFns;

verus! {

/// The Damerau-Levenshtein distance between two character sequences, as the
/// `distance` crate computes it.
pub uninterp spec fn dl_distance(word: Seq<char>, reference: Seq<char>) -> nat;

/// Relies on `distance::damerau_levenshtein`: the distance depends on the two
/// strings alone, and an empty operand is as far from the other string as
/// that string has characters.
#[verifier::external_body]
fn damerau_levenshtein(word: &str, reference: &str) -> (r: usize)
    ensures
        r as nat == dl_distance(word@, reference@),
        word@.len() == 0 ==> r == reference@.len(),
        reference@.len() == 0 ==> r == word@.len(),
{
    distance::damerau_levenshtein(word, reference)
}

/// The decimal digit of `d`, for `d` below ten.
pub open spec fn digit_char(d: nat) -> char {
    seq!['0', '1', '2', '3', '4', '5', '6', '7', '8', '9'][d as int]
}

/// The decimal form of `n`, without leading zeros.
pub open spec fn decimal(n: nat) -> Seq<char>
    decreases n,
{
    if n < 10 {
        seq![digit_char(n)]
    } else {
        decimal(n / 10).push(digit_char(n % 10))
    }
}

/// Relies on `usize`'s `ToString`: the decimal digits of the number.
#[verifier::external_body]
pub(crate) fn decimal_string(n: usize) -> (r: String)
    ensures
        r@ == decimal(n as nat),
{
    n.to_string()
}

/// Score of a word against the reference word; lower is better.
#[derive(Debug, PartialEq, Eq, Structural, PartialOrd, Ord, Clone, Copy)]
pub struct WordScore(pub usize);

impl WordScore {
    /// The number of edits that the score counts.
    pub fn value(&self) -> (r: usize)
        ensures
            r == self.0,
    {
        self.0
    }

    /// The score as text: `Δ = ` and the number of edits.
    pub fn to_text(&self) -> (r: String)
        ensures
            r@ == seq!['Δ', ' ', '=', ' '] + decimal(self.0 as nat),
    {
        let mut t = String::from_str("Δ = ");
        let digits = decimal_string(self.0);
        t.append(digits.as_str());
        proof {
            reveal_strlit("Δ = ");
        }
        t
    }
}

/// Scores `word` against `reference` by their Damerau-Levenshtein distance.
pub fn compare(word: &str, reference: &str) -> (r: WordScore)
    ensures
        r.0 as nat == dl_distance(word@, reference@),
        word@.len() == 0 ==> r.0 == reference@.len(),
        reference@.len() == 0 ==> r.0 == word@.len(),
{
    WordScore(damerau_levenshtein(word, reference))
}

} // verus!
