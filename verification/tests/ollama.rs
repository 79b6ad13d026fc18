use loomd::run::model::ModelError;
use loomd::run::ollama::{refused_message, unreachable_message, Chunk, Failure, Ollama, Streamed};
use loomd::run::talk::ToolCall;

#[test]
fn an_endpoint_off_this_machine_is_not_local() {
    assert!(Ollama::new(None).local());
    assert!(Ollama::new(Some("http://localhost:11434")).local());
    assert!(!Ollama::new(Some("https://models.example.com")).local());
    assert!(Ollama::new(Some("http://[::1]:11434")).local());
}

#[test]
fn an_endpoint_is_trimmed_and_defaults_to_this_machine() {
    assert_eq!(Ollama::new(None).endpoint(), "http://127.0.0.1:11434");
    assert_eq!(Ollama::new(Some("   ")).endpoint(), "http://127.0.0.1:11434");
    assert_eq!(Ollama::new(Some(" http://box:11434// ")).endpoint(), "http://box:11434");
    assert_eq!(Ollama::new(Some("http://box:11434/")).chat_url(), "http://box:11434/api/chat");
    assert_eq!(Ollama::new(None).tags_url(), "http://127.0.0.1:11434/api/tags");
}

/// A missing Ollama says so in words, and names the fix.
#[test]
fn a_missing_ollama_says_so_in_words() {
    let refused = Failure { connecting: true, said: "Connection refused (os error 111)".into() };
    let message = unreachable_message("http://127.0.0.1:1", &refused);
    assert!(message.contains("ollama serve"), "{message}");
    assert_eq!(message, "no Ollama at http://127.0.0.1:1 — is `ollama serve` running?");
    let other = Failure { connecting: false, said: "http status: 500".into() };
    assert_eq!(unreachable_message("http://box", &other), "http://box: http status: 500");
}

fn json(text: &str) -> serde_json::Value {
    serde_json::from_str(text).unwrap()
}

fn chunk(content: &str, calls: Vec<(&str, serde_json::Value)>, done: bool) -> Chunk<serde_json::Value> {
    Chunk {
        content: content.to_string(),
        calls: calls.into_iter().map(|(n, a)| ToolCall { name: n.to_string(), arguments: a }).collect(),
        done,
        prompt_eval_count: if done { Some(210) } else { None },
        eval_count: if done { Some(3) } else { None },
        eval_duration: if done { Some(100_000_000) } else { None },
        error: None,
    }
}

/// A streamed answer is the lines' text joined, each piece handed on as it
/// comes, and the last line's counts.
#[test]
fn a_streamed_answer_arrives_token_by_token() {
    let mut s: Streamed<serde_json::Value> = Streamed::new();
    let mut shown = Vec::new();
    for line in [chunk("The ", vec![], false), chunk("build ", vec![], false), chunk("failed.", vec![], false)] {
        if let Some(piece) = s.take(line).unwrap() {
            shown.push(piece);
        }
        assert_eq!(s.usage(), (0, 0, 0));
    }
    assert_eq!(s.take(chunk("", vec![], true)).unwrap(), None);
    assert_eq!(shown, ["The ", "build ", "failed."]);
    assert_eq!(s.usage(), (210, 3, 100_000_000));
    let (text, calls) = s.into_turn();
    assert_eq!(text, "The build failed.");
    assert!(calls.is_empty());
}

/// Tool calls join the answer in the order they came, arguments untouched.
#[test]
fn tool_calls_come_back_in_order() {
    let mut s: Streamed<serde_json::Value> = Streamed::new();
    let build = json(r#"{ "command": "cargo build" }"#);
    assert_eq!(s.take(chunk("", vec![("terminal_run", build)], false)).unwrap(), None);
    s.take(chunk("", vec![("face_express", json("{}")), ("terminal_run", json(r#"{ "command": "ls" }"#))], true))
        .unwrap();
    let (text, calls) = s.into_turn();
    assert_eq!(text, "");
    let names: Vec<&str> = calls.iter().map(|c| c.name.as_str()).collect();
    assert_eq!(names, ["terminal_run", "face_express", "terminal_run"]);
    assert_eq!(calls[0].arguments["command"], "cargo build");
    assert_eq!(calls[2].arguments["command"], "ls");
}

/// A line that carries an error is the provider refusing, in its own words.
#[test]
fn an_error_in_the_stream_is_reported_as_a_refusal() {
    let mut s: Streamed<serde_json::Value> = Streamed::new();
    let mut bad = chunk("", vec![], false);
    bad.error = Some("model 'nope' not found".to_string());
    match s.take(bad) {
        Err(ModelError::Refused(m)) => assert_eq!(m, "model 'nope' not found"),
        _ => panic!("expected a refusal"),
    }
}

#[test]
fn an_error_status_asks_whether_the_model_was_pulled() {
    assert_eq!(refused_message(404, "llama3.2:3b"), "ollama answered 404 — is `llama3.2:3b` pulled?");
}

#[test]
fn a_tool_call_comes_back_as_one() {
    let mut s: Streamed<serde_json::Value> = Streamed::new();
    s.take(chunk("", vec![("terminal_run", json(r#"{"command":"cargo build"}"#))], true)).unwrap();
    let (_, calls) = s.into_turn();
    assert_eq!(calls.len(), 1);
    assert_eq!(calls[0].name, "terminal_run");
    assert_eq!(calls[0].arguments["command"], "cargo build");
}
