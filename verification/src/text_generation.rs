//! Text-generation support: the tokenizer interface, generation results
//! with their stop reasons, rendering of generation statistics, and
//! end-of-sequence token lookup over a plain vocabulary.

use vstd::prelude::*;

verus! {

use vstd::string::StringExecFns;
use crate::text::decimal_digits;
use crate::text::u64_to_decimal;
use crate::assoc::has_name;
use crate::assoc::index_of_name;
use crate::assoc::value_of;
use crate::assoc::entry_names;
use crate::assoc::lemma_index_of_name;
use crate::assoc::lemma_index_of_name_is;
use crate::http::str_eq;

/// A tokenizer as the generation loop sees it. What a particular tokenizer
/// returns is its own affair; nothing here constrains it.
pub trait TokenizerHandle {
    fn encode(&self, text: &str) -> Result<Vec<u32>, String>;

    fn decode(&self, tokens: &[u32]) -> Result<String, String>;

    fn vocab_size(&self) -> usize;
}

/// Why a generation run stopped.
#[derive(Debug, Clone, PartialEq)]
pub enum StopReason {
    /// The model produced its end-of-sequence token.
    EndOfSequence,
    /// The token limit was reached.
    MaxTokens,
    /// The host's instruction budget was nearly exhausted.
    InstructionLimit,
    /// Generation failed.
    Error(String),
}

/// What one generation run produced.
#[derive(Debug, Clone)]
pub struct GenerationResponse {
    pub text: String,
    pub tokens_generated: usize,
    pub instructions_used: u64,
    pub stopped_reason: StopReason,
}

/// The word used for a stop reason inside the statistics line.
pub open spec fn spec_reason_text(r: StopReason) -> Seq<char> {
    match r {
        StopReason::EndOfSequence => "completed"@,
        StopReason::MaxTokens => "max tokens reached"@,
        StopReason::InstructionLimit => "instruction limit reached"@,
        StopReason::Error(_) => ""@,
    }
}

/// The statistics line for a generation response.
pub open spec fn spec_generation_stats(r: GenerationResponse) -> Seq<char> {
    match r.stopped_reason {
        StopReason::Error(e) => "error: "@ + e@,
        _ => "Generated "@ + decimal_digits(r.tokens_generated as nat) + " tokens using "@
            + decimal_digits(r.instructions_used as nat) + " instructions ("@ + spec_reason_text(
            r.stopped_reason,
        ) + ")"@,
    }
}

/// One line of statistics about a generation run: token count, instruction
/// count and why it stopped; for a failed run, the error instead.
pub fn format_generation_stats(response: &GenerationResponse) -> (out: String)
    ensures
        out@ == spec_generation_stats(*response),
{
    let mut out = String::new();
    match &response.stopped_reason {
        StopReason::Error(e) => {
            out.append("error: ");
            out.append(e.as_str());
            return out;
        },
        _ => {},
    }
    out.append("Generated ");
    let tokens = u64_to_decimal(response.tokens_generated as u64);
    out.append(tokens.as_str());
    out.append(" tokens using ");
    let instructions = u64_to_decimal(response.instructions_used);
    out.append(instructions.as_str());
    out.append(" instructions (");
    match &response.stopped_reason {
        StopReason::EndOfSequence => {
            out.append("completed");
        },
        StopReason::MaxTokens => {
            out.append("max tokens reached");
        },
        StopReason::InstructionLimit => {
            out.append("instruction limit reached");
        },
        StopReason::Error(_) => {},
    }
    out.append(")");
    out
}

/// The id of the first vocabulary entry with the given token text.
fn vocab_find(vocab: &Vec<(String, u32)>, name: &str) -> (r: Option<u32>)
    ensures
        r is Some <==> has_name(vocab_view(*vocab), name@),
        r matches Some(id) ==> id == value_of(vocab_view(*vocab), name@),
{
    proof {
        lemma_index_of_name(vocab_view(*vocab), name@);
    }
    let n = vocab.len();
    let mut i: usize = 0;
    while i < n
        invariant
            i <= n,
            n == vocab@.len(),
            forall|k: int| 0 <= k < i ==> vocab_view(*vocab)[k].0 != name@,
        decreases n - i,
    {
        if str_eq(vocab[i].0.as_str(), name) {
            proof {
                lemma_index_of_name_is(vocab_view(*vocab), name@, i as int);
                assert(entry_names(vocab_view(*vocab))[i as int] == name@);
            }
            return Some(vocab[i].1);
        }
        i += 1;
    }
    proof {
        assert forall|j: int|
            0 <= j < entry_names(vocab_view(*vocab)).len() implies entry_names(
            vocab_view(*vocab),
        )[j] != name@ by {
            assert(vocab_view(*vocab)[j].0 != name@);
        }
        assert(!has_name(vocab_view(*vocab), name@));
    }
    None
}

/// A vocabulary as `(token text, id)` pairs.
pub open spec fn vocab_view(vocab: Vec<(String, u32)>) -> Seq<(Seq<char>, u32)> {
    vocab@.map_values(|e: (String, u32)| (e.0@, e.1))
}

/// The end-of-sequence id a vocabulary provides: the id of the first of the
/// usual end markers it contains, or 0 when it has none.
pub open spec fn spec_eos_token(vs: Seq<(Seq<char>, u32)>) -> u32 {
    if has_name(vs, "<|endoftext|>"@) {
        value_of(vs, "<|endoftext|>"@)
    } else if has_name(vs, "<|im_end|>"@) {
        value_of(vs, "<|im_end|>"@)
    } else if has_name(vs, "</s>"@) {
        value_of(vs, "</s>"@)
    } else if has_name(vs, "<eos>"@) {
        value_of(vs, "<eos>"@)
    } else {
        0
    }
}

/// The end-of-sequence token id of a vocabulary, given as `(token text,
/// id)` pairs: the first of the common end-marker names that appears, or 0
/// when none does.
pub fn find_eos_token(vocab: &Vec<(String, u32)>) -> (id: u32)
    ensures
        id == spec_eos_token(vocab_view(*vocab)),
{
    if let Some(id) = vocab_find(vocab, "<|endoftext|>") {
        return id;
    }
    if let Some(id) = vocab_find(vocab, "<|im_end|>") {
        return id;
    }
    if let Some(id) = vocab_find(vocab, "</s>") {
        return id;
    }
    if let Some(id) = vocab_find(vocab, "<eos>") {
        return id;
    }
    0
}

} // verus!
