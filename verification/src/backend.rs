//! Which analyzer backend a run uses, decided from the command-line options.

use vstd::prelude::*;

use crate::counts_map::same_text;

verus! {

/// The backend a run talks to.
#[derive(Debug, PartialEq, Eq)]
pub enum BackendChoice {
    /// The Presidio analyzer.
    Presidio,
    /// An Ollama model, prompted with a system prompt.
    Ollama { model: String },
}

/// Why no backend could be chosen.
#[derive(Debug, PartialEq, Eq)]
pub enum BackendError {
    /// The Ollama backend was asked for without a model name.
    MissingOllamaModel,
    /// The backend name is neither `presidio` nor `ollama`.
    UnknownBackend { name: String },
}

pub open spec fn presidio_name() -> Seq<char> {
    seq!['p', 'r', 'e', 's', 'i', 'd', 'i', 'o']
}

pub open spec fn ollama_name() -> Seq<char> {
    seq!['o', 'l', 'l', 'a', 'm', 'a']
}

fn is_ollama(backend: &str) -> (r: bool)
    ensures
        r == (backend@ == ollama_name()),
{
    let name = "ollama";
    proof {
        reveal_strlit("ollama");
        assert(name@ =~= ollama_name());
    }
    same_text(backend, name)
}

fn is_presidio(backend: &str) -> (r: bool)
    ensures
        r == (backend@ == presidio_name()),
{
    let name = "presidio";
    proof {
        reveal_strlit("presidio");
        assert(name@ =~= presidio_name());
    }
    same_text(backend, name)
}

/// Chooses the backend named `backend`. The Ollama backend needs a model
/// name; any other name than `presidio` or `ollama` is refused.
pub fn choose_backend(backend: &str, ollama_model: Option<String>) -> (r: Result<
    BackendChoice,
    BackendError,
>)
    ensures
        backend@ == presidio_name() ==> r == Ok::<BackendChoice, BackendError>(
            BackendChoice::Presidio,
        ),
        backend@ == ollama_name() ==> match ollama_model {
            Some(m) => r == Ok::<BackendChoice, BackendError>(BackendChoice::Ollama { model: m }),
            None => r == Err::<BackendChoice, BackendError>(BackendError::MissingOllamaModel),
        },
        backend@ != presidio_name() && backend@ != ollama_name() ==> (r matches Err(
            BackendError::UnknownBackend { name },
        ) && name@ == backend@),
{
    if is_presidio(backend) {
        Ok(BackendChoice::Presidio)
    } else if is_ollama(backend) {
        match ollama_model {
            Some(model) => Ok(BackendChoice::Ollama { model }),
            None => Err(BackendError::MissingOllamaModel),
        }
    } else {
        Err(BackendError::UnknownBackend { name: backend.to_string() })
    }
}

/// The warm-up timeout a run records: the given one for the Ollama backend,
/// none for any other.
pub fn warmup_timeout(backend: &str, warmup_timeout_secs: u64) -> (r: Option<u64>)
    ensures
        r == (if backend@ == ollama_name() {
            Some(warmup_timeout_secs)
        } else {
            None
        }),
{
    if is_ollama(backend) {
        Some(warmup_timeout_secs)
    } else {
        None
    }
}

} // verus!
