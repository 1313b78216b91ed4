//! Tokens: an immutable spelling (byte string) plus a precomputed content
//! hash. Equality is defined purely on the spelling bytes; the hash only
//! short-circuits comparisons.

use vstd::prelude::*;

verus! {

/// The digest that the fixed-seed FxHasher produces for a byte string;
/// a function of the bytes alone.
pub uninterp spec fn fx_hash_of(bytes: Seq<u8>) -> u64;

/// Relies on rustc_hash::FxHasher (seed 0) via std's Hash for byte slices:
/// the digest depends on the hashed bytes alone.
#[verifier::external_body]
fn fx_hash_bytes(bytes: &Vec<u8>) -> (r: u64)
    ensures
        r == fx_hash_of(bytes@),
{
    let mut hasher = rustc_hash::FxHasher::with_seed(0);
    std::hash::Hash::hash(bytes.as_slice(), &mut hasher);
    std::hash::Hasher::finish(&hasher)
}

/// One token of the stream: spelling bytes plus their FxHasher digest.
pub struct Token {
    spelling: Vec<u8>,
    hash: u64,
}

impl Token {
    #[verifier::type_invariant]
    spec fn inv(self) -> bool {
        self.hash == fx_hash_of(self.spelling@)
    }

    /// Build a token from its spelling, precomputing the content hash.
    pub fn new(spelling: Vec<u8>) -> (t: Token)
        ensures
            t@ == spelling@,
    {
        let hash = fx_hash_bytes(&spelling);
        Token { spelling, hash }
    }

    /// The spelling bytes, for callers outside the verified core.
    pub fn spelling(&self) -> (r: &Vec<u8>)
        ensures
            r@ == self@,
    {
        &self.spelling
    }

    /// Content equality: true exactly when the spellings agree. The hash
    /// comparison only short-circuits the byte comparison.
    pub fn eq_spelling(&self, other: &Token) -> (r: bool)
        ensures
            r == (self@ == other@),
    {
        proof {
            use_type_invariant(self);
            use_type_invariant(other);
        }
        if self.hash != other.hash {
            proof {
                assert(self@ != other@) by {
                    if self@ == other@ {
                        assert(fx_hash_of(self.spelling@) == fx_hash_of(other.spelling@));
                    }
                }
            }
            false
        } else {
            let r = self.spelling == other.spelling;
            proof {
                if r {
                    assert(self.spelling@ =~= other.spelling@);
                }
            }
            r
        }
    }
}

impl View for Token {
    type V = Seq<u8>;

    closed spec fn view(&self) -> Seq<u8> {
        self.spelling@
    }
}

impl Clone for Token {
    fn clone(&self) -> (t: Token)
        ensures
            t@ == self@,
    {
        proof {
            use_type_invariant(self);
        }
        let spelling = self.spelling.clone();
        proof {
            assert(spelling@ =~= self.spelling@);
        }
        Token { spelling, hash: self.hash }
    }
}

/// The sequence of spellings that a token sequence denotes; the contracts of
/// the whole crate speak of streams through this view.
pub open spec fn spellings(s: Seq<Token>) -> Seq<Seq<u8>> {
    Seq::new(s.len(), |i: int| s[i]@)
}

/// Copy a byte string.
pub fn clone_bytes(v: &Vec<u8>) -> (r: Vec<u8>)
    ensures
        r@ == v@,
{
    let r = v.clone();
    proof {
        assert(r@ =~= v@);
    }
    r
}

/// Copy a token stream.
pub fn clone_tokens(tokens: &Vec<Token>) -> (r: Vec<Token>)
    ensures
        spellings(r@) == spellings(tokens@),
{
    let mut r: Vec<Token> = Vec::new();
    let mut i: usize = 0;
    while i < tokens.len()
        invariant
            i <= tokens.len(),
            r@.len() == i,
            forall|j: int| 0 <= j < i ==> r@[j]@ == tokens@[j]@,
        decreases tokens.len() - i,
    {
        r.push(tokens[i].clone());
        i += 1;
    }
    proof {
        assert(spellings(r@) =~= spellings(tokens@));
    }
    r
}

} // verus!
