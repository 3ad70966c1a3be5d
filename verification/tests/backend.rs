use pii_eval::backend::{choose_backend, warmup_timeout, BackendChoice, BackendError};

#[test]
fn presidio_needs_no_model() {
    assert_eq!(choose_backend("presidio", None), Ok(BackendChoice::Presidio));
    assert_eq!(
        choose_backend("presidio", Some("qwen".to_string())),
        Ok(BackendChoice::Presidio)
    );
}

#[test]
fn ollama_takes_the_model() {
    assert_eq!(
        choose_backend("ollama", Some("qwen2.5:7b-instruct".to_string())),
        Ok(BackendChoice::Ollama { model: "qwen2.5:7b-instruct".to_string() })
    );
}

#[test]
fn ollama_without_model_is_refused() {
    assert_eq!(choose_backend("ollama", None), Err(BackendError::MissingOllamaModel));
}

#[test]
fn unknown_backend_is_refused_with_its_name() {
    assert_eq!(
        choose_backend("Ollama", None),
        Err(BackendError::UnknownBackend { name: "Ollama".to_string() })
    );
    assert_eq!(
        choose_backend("", None),
        Err(BackendError::UnknownBackend { name: String::new() })
    );
}

#[test]
fn warmup_timeout_only_for_ollama() {
    assert_eq!(warmup_timeout("ollama", 300), Some(300));
    assert_eq!(warmup_timeout("ollama", 60), Some(60));
    assert_eq!(warmup_timeout("presidio", 300), None);
}
