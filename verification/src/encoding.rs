//! Encoding text by a SentencePiece model.

use crate::bpe::{bpe_covers_text, bpe_tokens};
use crate::error::TtsError;
use crate::sp_model::{
    after_space, contribution, is_blank, normal_text, normal_text_to, ModelView, NormalizerSpec,
    SentencePieceModel,
};
use crate::token::{concatenated, token_views, Token, TokenView};
use crate::unigram::{unigram_covers_text, unigram_tokens};
use vstd::prelude::*;

verus! {

/// The tokens of a text.
pub open spec fn tokens_of(m: ModelView, text: Seq<char>) -> Seq<TokenView> {
    let normal = normal_text(m.normalizer, text);
    if m.trainer.model_type == 2 {
        bpe_tokens(m, normal)
    } else {
        unigram_tokens(m, normal)
    }
}

/// Nothing is lost in encoding: the pieces of the tokens, one after the other,
/// are the normalized text.
pub proof fn encoding_covers_text(m: ModelView, text: Seq<char>)
    requires
        normal_text(m.normalizer, text).len() <= usize::MAX,
    ensures
        concatenated(tokens_of(m, text)) == normal_text(m.normalizer, text),
{
    let normal = normal_text(m.normalizer, text);
    bpe_covers_text(m, normal);
    unigram_covers_text(m, normal);
}

/// Where whitespace is escaped, the normalized text holds none.
pub proof fn escaping_leaves_no_blank(n: NormalizerSpec, text: Seq<char>)
    requires
        n.escape_whitespaces,
    ensures
        forall|i: int|
            0 <= i < normal_text(n, text).len() ==> !is_blank(#[trigger] normal_text(n, text)[i]),
{
    lemma_no_blank_to(n, text, text.len());
}

proof fn lemma_no_blank_to(n: NormalizerSpec, text: Seq<char>, k: nat)
    requires
        n.escape_whitespaces,
        k <= text.len(),
    ensures
        forall|i: int|
            0 <= i < normal_text_to(n, text, k).len() ==> !is_blank(
                #[trigger] normal_text_to(n, text, k)[i],
            ),
    decreases k,
{
    if k > 0 {
        lemma_no_blank_to(n, text, (k - 1) as nat);
        let front = normal_text_to(n, text, (k - 1) as nat);
        let new = contribution(n, after_space(n, text, k - 1), text[k - 1]);
        assert(forall|i: int| 0 <= i < new.len() ==> !is_blank(#[trigger] new[i]));
        assert forall|i: int| 0 <= i < (front + new).len() implies !is_blank(
            #[trigger] (front + new)[i],
        ) by {
            if i >= front.len() {
                assert((front + new)[i] == new[i - front.len()]);
            }
        }
    }
}

/// Models of byte-pair encoding, which have type 2, are encoded by merging, and
/// all others by search.
pub proof fn model_type_decides(m: ModelView, text: Seq<char>)
    ensures
        m.trainer.model_type == 2 ==> tokens_of(m, text) == bpe_tokens(
            m,
            normal_text(m.normalizer, text),
        ),
        m.trainer.model_type != 2 ==> tokens_of(m, text) == unigram_tokens(
            m,
            normal_text(m.normalizer, text),
        ),
{
}

impl SentencePieceModel {
    /// Encode text to tokens: by merging for models of byte-pair encoding, by
    /// Viterbi search for others.
    pub fn encode(&self, text: &str) -> (r: Result<Vec<Token>, TtsError>)
        requires
            self.wf(),
        ensures
            r matches Ok(tokens) && token_views(tokens@) == tokens_of(self@, text@),
    {
        let normalized = self.normalize(text);
        if self.model_type() == 2 {
            Ok(self.encode_bpe(&normalized))
        } else {
            Ok(self.encode_unigram(&normalized))
        }
    }
}

} // verus!
