//! The capability a node value must have: a text token form.
//!
//! A value is written as a single token — non-empty, with no space and no
//! newline — and can be read back from exactly that token. The graph's
//! serialization format relies on both.

use vstd::prelude::*;
use crate::text::{chars_of, dec_digits, lemma_dec_digits, lemma_digits_no_separators, parse_u32,
    parse_u32_token, push_dec, string_of};

verus! {

/// A token: non-empty text holding neither a space nor a newline.
pub open spec fn valid_token(s: Seq<char>) -> bool {
    s.len() > 0 && forall|i: int| 0 <= i < s.len() ==> s[i] != ' ' && s[i] != '\n'
}

/// A value that can stand as one token of text.
///
/// `token` is the canonical written form, `decode_spec` says what reading
/// any text yields, and `lemma_token_valid` obliges every implementation
/// to write well-formed tokens that read back to the same value.
pub trait TokenValue: Sized {
    /// The canonical token of this value.
    spec fn token(&self) -> Seq<char>;

    /// What decoding the given text yields, if anything.
    spec fn decode_spec(s: Seq<char>) -> Option<Self>;

    /// Every canonical token is well formed and decodes to its value.
    proof fn lemma_token_valid(&self)
        ensures
            valid_token(self.token()),
            Self::decode_spec(self.token()) == Some(*self),
    ;

    /// Writes the canonical token.
    fn encode(&self) -> (r: String)
        ensures
            r@ == self.token(),
    ;

    /// Reads a value back from text.
    fn decode(s: &str) -> (r: Option<Self>)
        ensures
            r == Self::decode_spec(s@),
    ;
}

impl TokenValue for u32 {
    open spec fn token(&self) -> Seq<char> {
        dec_digits(*self as nat)
    }

    open spec fn decode_spec(s: Seq<char>) -> Option<u32> {
        parse_u32(s)
    }

    proof fn lemma_token_valid(&self) {
        lemma_dec_digits(*self as nat);
        lemma_digits_no_separators(dec_digits(*self as nat));
    }

    fn encode(&self) -> (r: String) {
        let mut cs: Vec<char> = Vec::new();
        push_dec(*self, &mut cs);
        string_of(&cs)
    }

    fn decode(s: &str) -> (r: Option<u32>) {
        let cs = chars_of(s);
        parse_u32_token(&cs)
    }
}

} // verus!
