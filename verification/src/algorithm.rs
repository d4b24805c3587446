//! The compression codings that the cache can produce.

use vstd::prelude::*;

use crate::text::chars_of;

verus! {

/// A supported compression coding.
#[derive(Debug, Clone, Copy, PartialEq, Eq, Hash, Structural)]
pub enum Algorithm {
    Gzip,
}

impl Algorithm {
    /// The lowercase token of the coding, as it stands in an accepted-encodings
    /// list and as the suffix of a compressed file's name.
    pub open spec fn token(self) -> Seq<char> {
        match self {
            Algorithm::Gzip => seq!['g', 'z', 'i', 'p'],
        }
    }

    /// The coding that a token names, if any. The match is exact and
    /// case-sensitive.
    pub open spec fn from_token(token: Seq<char>) -> Option<Algorithm> {
        if token == Algorithm::Gzip.token() {
            Some(Algorithm::Gzip)
        } else {
            None
        }
    }

    /// The token of this coding.
    pub fn name(&self) -> (token: &'static str)
        ensures
            token@ == self.token(),
    {
        match self {
            Algorithm::Gzip => {
                proof {
                    reveal_strlit("gzip");
                }
                assert("gzip"@ =~= seq!['g', 'z', 'i', 'p']);
                "gzip"
            },
        }
    }

    /// The token of this coding, as an owned string.
    pub fn to_string(&self) -> (token: String)
        ensures
            token@ == self.token(),
    {
        self.name().to_owned()
    }

    /// Looks a token up among the known codings.
    pub fn from_name(name: &str) -> (found: Option<Algorithm>)
        ensures
            found == Algorithm::from_token(name@),
    {
        let chars = chars_of(name);
        Algorithm::from_chars(chars.as_slice())
    }

    /// Looks a token up among the known codings, the token given as characters.
    pub fn from_chars(token: &[char]) -> (found: Option<Algorithm>)
        ensures
            found == Algorithm::from_token(token@),
    {
        if token.len() == 4 && token[0] == 'g' && token[1] == 'z' && token[2] == 'i' && token[3]
            == 'p' {
            assert(token@ =~= Algorithm::Gzip.token());
            Some(Algorithm::Gzip)
        } else {
            None
        }
    }
}

/// A known token names the coding whose token it is, and `from_token` finds
/// nothing but what `token` gives.
pub proof fn lemma_token_round_trip(algorithm: Algorithm, token: Seq<char>)
    ensures
        Algorithm::from_token(algorithm.token()) == Some(algorithm),
        Algorithm::from_token(token) == Some(algorithm) <==> token == algorithm.token(),
{
}

} // verus!
