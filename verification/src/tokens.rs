//! The token-budget collaborator, behind a trusted wrapper: which model
//! names are recognized is named by an uninterpreted predicate, the
//! truncation's result by an uninterpreted function, and a tokenizer run
//! that fails on the text is a stated outcome, never a crash.

use vstd::prelude::*;

verus! {

/// The model names the token counter recognizes.
pub uninterp spec fn model_known(model: Seq<char>) -> bool;

/// What the truncation returns for a given text, model and budget, when the
/// tokenizer completes. The tokenizer tables are fixed per model name, so
/// the result is a function of these three arguments alone.
pub uninterp spec fn truncated_of(text: Seq<char>, model: Seq<char>, max: int) -> Seq<char>;

/// How one run of the token-budget truncation can end.
pub enum TokenBudgetOutcome {
    UnknownModel,
    TokenizerFailed,
    Text(String),
}

/// Relies on tiktoken_rs's `get_bpe_from_model`, `CoreBPE::encode` and
/// `CoreBPE::decode_bytes`: returns the text unchanged when it is within the
/// token budget, and otherwise the longest prefix that decodes cleanly from
/// the first `max_tokens` tokens. An unknown model name and a tokenizer run
/// that fails on the text (its regex engine gives up on pathological input)
/// are reported as their own outcomes; `encode` surfaces that failure as an
/// error where `encode_ordinary` would panic.
#[verifier::external_body]
pub fn truncate_to_budget(text: &str, model: &str, max_tokens: usize) -> (r: TokenBudgetOutcome)
    ensures
        r is UnknownModel <==> !model_known(model@),
        r matches TokenBudgetOutcome::Text(s) ==> s@ == truncated_of(
            text@,
            model@,
            max_tokens as int,
        ),
        r matches TokenBudgetOutcome::Text(s) ==> s@ == text@.take(s@.len() as int),
{
    let Ok(bpe) = tiktoken_rs::get_bpe_from_model(model) else {
        return TokenBudgetOutcome::UnknownModel;
    };
    let Ok((tokens, _)) = bpe.encode(text, &std::collections::HashSet::new()) else {
        return TokenBudgetOutcome::TokenizerFailed;
    };
    if tokens.len() <= max_tokens {
        return TokenBudgetOutcome::Text(text.to_owned());
    }
    let bytes = bpe.decode_bytes(&tokens[..max_tokens]).unwrap_or_default();
    let n = match std::str::from_utf8(&bytes) {
        Ok(s) => s.len(),
        Err(e) => e.valid_up_to(),
    };
    TokenBudgetOutcome::Text(String::from_utf8_lossy(&bytes[..n]).into_owned())
}

} // verus!
