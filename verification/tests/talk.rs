use loomd::run::talk::{recalled_line, rounds_out_line, token_figure, Conversation, Message, Next, ToolCall, MAX_TOOL_ROUNDS};

fn contents(c: &Conversation<u8>) -> Vec<String> {
    c.messages()
        .iter()
        .map(|m| match m {
            Message::System { content } => format!("system: {content}"),
            Message::User { content } => format!("user: {content}"),
            Message::Assistant { content, tool_calls } => {
                let names: Vec<&str> = tool_calls.iter().map(|c| c.name.as_str()).collect();
                format!("assistant: {content} [{}]", names.join(", "))
            }
            Message::Tool { name, content } => format!("tool {name}: {content}"),
        })
        .collect()
}

#[test]
fn the_model_is_told_what_it_needs_before_the_question() {
    let recalled = vec!["[person] Sam".to_string(), "[episode] the door was closed".to_string()];
    let c: Conversation<u8> = Conversation::open(Some("Be brief."), Some("ticket 7"), &recalled, "What failed?");
    assert_eq!(
        contents(&c),
        [
            "system: Be brief.",
            "system: Context:\nticket 7",
            "system: What you remember:\n[person] Sam\n[episode] the door was closed",
            "user: What failed?",
        ]
    );
    let bare: Conversation<u8> = Conversation::open(None, None, &Vec::new(), "Hi");
    assert_eq!(contents(&bare), ["user: Hi"]);
}

/// The model calls the terminal, reads the failure, and answers.
#[test]
fn the_model_calls_a_tool_reads_the_result_and_answers() {
    let mut c: Conversation<u8> = Conversation::open(None, None, &Vec::new(), "Why does it not build?");
    let next = c.turn("Let me look.".into(), vec![ToolCall { name: "terminal_run".into(), arguments: 1 }], 10, 4);
    assert!(matches!(next, Next::Call { last: None }));
    c.answered("terminal_run".into(), "exit 101\nstderr:\nlinking failed".into());
    match c.turn("The linker failed.".into(), Vec::new(), 30, 5) {
        Next::Answer(text) => assert_eq!(text, "The linker failed."),
        Next::Call { .. } => panic!("no calls were made"),
    }
    assert_eq!(
        contents(&c),
        [
            "user: Why does it not build?",
            "assistant: Let me look. [terminal_run]",
            "tool terminal_run: exit 101\nstderr:\nlinking failed",
        ]
    );
    assert_eq!(c.usage(), (40, 9));
    assert_eq!(c.called_names(), &["terminal.run"]);
    assert_eq!(token_figure(9).as_deref(), Some("9 tokens"));
    assert_eq!(token_figure(0), None);
}

#[test]
fn a_model_that_keeps_calling_tools_is_stopped_after_its_rounds() {
    let mut c: Conversation<u8> = Conversation::open(None, None, &Vec::new(), "loop");
    for round in 0..MAX_TOOL_ROUNDS {
        let next = c.turn(format!("round {round}"), vec![ToolCall { name: "python_exec".into(), arguments: 0 }], 1, 1);
        match next {
            Next::Call { last: None } => assert!(round + 1 < MAX_TOOL_ROUNDS),
            Next::Call { last: Some(text) } => {
                assert_eq!(round + 1, MAX_TOOL_ROUNDS);
                assert_eq!(text, "round 7");
            }
            Next::Answer(_) => panic!("it asked for a tool"),
        }
        c.answered("python_exec".into(), "ok".into());
    }
    assert_eq!(rounds_out_line(), "still calling tools after 8 rounds; answering with what it has");
    assert_eq!(c.called_names().len(), 8);
}

#[test]
fn what_memory_brought_back_is_counted_in_words() {
    assert_eq!(recalled_line(1), "recalled 1 thing from memory");
    assert_eq!(recalled_line(3), "recalled 3 things from memory");
}
