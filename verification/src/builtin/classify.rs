//! Resident classifier: its configuration, and what is checked around the
//! model.

use crate::head::RouterHead;
use crate::text;
use crate::text::decimal_text;
use vstd::prelude::*;
use vstd::string::*;

verus! {

/// Most tokens of a request that are classified.
pub const CLASSIFY_MAX_TOKENS: usize = 256;

/// Configuration of the resident classifier.
#[derive(Debug, Clone)]
pub struct ClassifyEngineConfig {
    /// Model file.
    pub model_path: String,
    /// Vocabulary file.
    pub vocab_path: String,
    /// File of the classification head.
    pub head_path: String,
    /// Timeout of a call, in milliseconds.
    pub timeout_ms: u64,
    /// Timeout of loading model and head, in seconds.
    pub load_timeout_secs: u64,
}

impl Default for ClassifyEngineConfig {
    fn default() -> (res: Self)
        ensures
            res.model_path@.len() == 0,
            res.vocab_path@.len() == 0,
            res.head_path@.len() == 0,
            res.timeout_ms == 5000,
            res.load_timeout_secs == 120,
    {
        ClassifyEngineConfig {
            model_path: String::new(),
            vocab_path: String::new(),
            head_path: String::new(),
            timeout_ms: 5000,
            load_timeout_secs: 120,
        }
    }
}

impl ClassifyEngineConfig {
    /// Tests that the model and the vocabulary are given.
    pub fn validate(&self) -> (res: Result<(), String>)
        ensures
            self.model_path@.len() == 0 || self.vocab_path@.len() == 0 ==> (res matches Err(m)
                && m@ == "classify engine: model_path and vocab_path are required"@),
            self.model_path@.len() > 0 && self.vocab_path@.len() > 0 ==> res is Ok,
    {
        if self.model_path.as_str().unicode_len() == 0 || self.vocab_path.as_str().unicode_len()
            == 0 {
            return Err("classify engine: model_path and vocab_path are required".to_owned());
        }
        Ok(())
    }

    /// Timeout of a call, in milliseconds: at least a hundred.
    pub fn call_timeout_ms(&self) -> (res: u64)
        ensures
            res == if self.timeout_ms < 100 {
                100
            } else {
                self.timeout_ms as int
            },
    {
        if self.timeout_ms < 100 {
            100
        } else {
            self.timeout_ms
        }
    }

    /// Timeout of loading, in seconds: at least ten.
    pub fn load_timeout(&self) -> (res: u64)
        ensures
            res == if self.load_timeout_secs < 10 {
                10
            } else {
                self.load_timeout_secs as int
            },
    {
        if self.load_timeout_secs < 10 {
            10
        } else {
            self.load_timeout_secs
        }
    }
}

/// Tests that a head fits the dimension of the model it is loaded for.
pub fn check_head(head: &RouterHead, num_embd: usize) -> (res: Result<(), String>)
    ensures
        head@.expected() == num_embd ==> res is Ok,
        head@.expected() != num_embd ==> (res matches Err(m) && m@ == "router head expects hidden "@
            + text::decimal(head@.expected()) + " != model n_embd "@ + text::decimal(
            num_embd as nat,
        ) + " (head/model mismatch)"@),
{
    let expected = head.expected_hidden_dim();
    if expected != num_embd {
        let mut m = "router head expects hidden ".to_owned();
        m.append(decimal_text(expected as u128).as_str());
        m.append(" != model n_embd ");
        m.append(decimal_text(num_embd as u128).as_str());
        m.append(" (head/model mismatch)");
        return Err(m);
    }
    Ok(())
}

/// Tests that a head which replaces another fits the model.
pub fn check_reloaded_head(head: &RouterHead, num_embd: usize) -> (res: Result<(), String>)
    ensures
        head@.expected() == num_embd ==> res is Ok,
        head@.expected() != num_embd ==> (res matches Err(m) && m@
            == "reloaded head expects hidden "@ + text::decimal(head@.expected())
            + " != model n_embd "@ + text::decimal(num_embd as nat)),
{
    let expected = head.expected_hidden_dim();
    if expected != num_embd {
        let mut m = "reloaded head expects hidden ".to_owned();
        m.append(decimal_text(expected as u128).as_str());
        m.append(" != model n_embd ");
        m.append(decimal_text(num_embd as u128).as_str());
        return Err(m);
    }
    Ok(())
}

/// The first tokens of a request, as many as are classified.
pub open spec fn first_tokens(tokens: Seq<u32>) -> Seq<u32> {
    if tokens.len() > CLASSIFY_MAX_TOKENS {
        tokens.take(CLASSIFY_MAX_TOKENS as int)
    } else {
        tokens
    }
}

/// The tokens of a request that are classified: the first 256. A request
/// without tokens cannot be classified.
pub fn bounded_tokens(tokens: Vec<u32>) -> (res: Result<Vec<u32>, String>)
    ensures
        tokens@.len() == 0 ==> (res matches Err(m) && m@
            == "classify request encoded to zero tokens"@),
        tokens@.len() > 0 ==> (res matches Ok(v) && v@ == first_tokens(tokens@)),
{
    let mut tokens = tokens;
    if tokens.len() == 0 {
        return Err("classify request encoded to zero tokens".to_owned());
    }
    if tokens.len() > CLASSIFY_MAX_TOKENS {
        let ghost all = tokens@;
        tokens.truncate(CLASSIFY_MAX_TOKENS);
        assert(tokens@ =~= all.take(CLASSIFY_MAX_TOKENS as int));
    }
    Ok(tokens)
}

/// A request is classified by its beginning: all of it where it is short, and
/// 256 tokens of it where it is long.
pub proof fn requests_are_classified_by_their_beginning(tokens: Seq<u32>, more: Seq<u32>)
    ensures
        tokens.len() <= 256 ==> first_tokens(tokens) == tokens,
        tokens.len() == 256 ==> first_tokens(tokens + more) == tokens,
{
    if tokens.len() == 256 {
        assert((tokens + more).take(256) =~= tokens);
        if more.len() == 0 {
            assert(tokens + more =~= tokens);
        }
    }
}

} // verus!
