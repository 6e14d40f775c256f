use memory_search::request::{
    context_for, embed_threads, hook_output, prompt_from, question_in, read_prompt, read_request, request_from,
    request_line, Member, Request,
};

fn request(q: &str, k: usize, raw: bool) -> Option<Request> {
    Some(Request {
        q: q.to_owned(),
        k,
        raw,
    })
}

#[test]
fn requests_are_read_back() {
    for q in ["", "who reads audit_logs", "ทำไม \"tenant\"\n\tพัง \\ \u{1}", "{\"k\":9}"] {
        for k in [0, 3, 40, usize::MAX] {
            let line = request_line(q, k);
            assert!(line.ends_with('\n'));
            assert_eq!(line.matches('\n').count(), 1);
            assert_eq!(read_request(&line), request(q, k, false));
        }
    }
    assert_eq!(request_line("a", 3), "{\"k\":3,\"q\":\"a\"}\n");
}

#[test]
fn what_a_request_leaves_out_is_filled_in() {
    assert_eq!(read_request("{}"), request("", 3, false));
    assert_eq!(read_request("  {\"q\":\"x\"} \n"), request("x", 3, false));
    assert_eq!(read_request("{\"q\":\"x\",\"k\":7,\"raw\":true}"), request("x", 7, true));
    assert_eq!(read_request("{\"q\":1,\"k\":\"7\",\"raw\":1}"), request("", 3, false));
    assert_eq!(read_request("{\"k\":-1}"), request("", 3, false));
    assert_eq!(read_request("{\"k\":2.0}"), request("", 3, false));
    assert_eq!(read_request("{\"k\":null,\"raw\":false,\"q\":[]}"), request("", 3, false));
    assert_eq!(read_request("[1]"), request("", 3, false));
}

#[test]
fn what_is_no_json_is_no_request() {
    assert_eq!(read_request(""), None);
    assert_eq!(read_request("hello"), None);
    assert_eq!(read_request("{\"q\":\"x\"} extra"), None);
}

#[test]
fn a_request_is_made_of_its_members() {
    assert_eq!(
        Some(request_from(Member::Text("x".to_owned()), Member::Number(Some(9)), Member::Truth(true))),
        request("x", 9, true)
    );
    assert_eq!(
        Some(request_from(Member::Object, Member::Number(None), Member::List)),
        request("", 3, false)
    );
}

#[test]
fn the_prompt_of_a_hook_is_read() {
    assert_eq!(read_prompt("{\"prompt\":\"how do I\",\"x\":1}"), "how do I");
    assert_eq!(read_prompt("{\"x\":1}"), "");
    assert_eq!(read_prompt("{\"prompt\":5}"), "");
    assert_eq!(read_prompt("not json"), "");
    assert_eq!(prompt_from(None), "");
    assert_eq!(prompt_from(Some(Member::Text("a".to_owned()))), "a");
}

#[test]
fn short_prompts_and_commands_ask_nothing() {
    assert_eq!(question_in("thanks!"), None);
    assert_eq!(question_in("   elevenchars   "), None);
    assert_eq!(question_in(" twelve chars "), Some("twelve chars".to_owned()));
    assert_eq!(question_in("/compact everything please"), None);
    assert_eq!(question_in("ทำไมต้องพังด้วย"), Some("ทำไมต้องพังด้วย".to_owned()));
    assert_eq!(question_in(""), None);
}

#[test]
fn pasted_terminal_output_asks_nothing() {
    assert_eq!(question_in("what is this\nme@host ~ % ls -la\nok"), None);
    assert_eq!(question_in("root@box:/# echo\nuser@box:~$ ls"), None);
    assert_eq!(
        question_in("mail me@host about it\nit costs 5% more"),
        Some("mail me@host about it\nit costs 5% more".to_owned())
    );
    assert_eq!(question_in("is 5% of me@host ok"), None);
    assert!(question_in("is 5%of me@host$").is_some());
}

#[test]
fn threads_are_taken_from_the_setting() {
    assert_eq!(embed_threads(None), 4);
    for (set, want) in [
        ("8", 8), ("+2", 2), ("007", 7), ("0", 4), ("", 4), ("+", 4), ("-1", 4), (" 8", 4),
        ("8 ", 4), ("2.5", 4), ("x", 4), ("++1", 4), ("๓", 4), ("99999999999999999999999999", 4),
    ] {
        assert_eq!(embed_threads(Some(set)), want, "{set:?}");
        let std = set.parse::<usize>().ok().filter(|n| *n > 0).unwrap_or(4);
        assert_eq!(std, want, "{set:?}");
    }
    assert_eq!(embed_threads(Some(&format!("{}", usize::MAX))), usize::MAX);
}

#[test]
fn a_hook_adds_to_the_prompt() {
    assert_eq!(
        hook_output("a\n\"b\""),
        "{\"hookSpecificOutput\":{\"additionalContext\":\"a\\n\\\"b\\\"\",\"hookEventName\":\"UserPromptSubmit\"}}"
    );
    for context in ["", "ทำไม\r\n\t\u{1}", "{}"] {
        let line = hook_output(context);
        assert!(!line.contains('\n'));
        let v: serde_json::Value = match serde_json::from_str(&line) {
            Ok(v) => v,
            Err(e) => panic!("no JSON: {e}"),
        };
        let inner = &v["hookSpecificOutput"];
        assert_eq!(inner["additionalContext"].as_str(), Some(context));
        assert_eq!(inner["hookEventName"].as_str(), Some("UserPromptSubmit"));
    }
}

#[test]
fn only_what_was_found_is_put_in_front() {
    assert_eq!(context_for(""), None);
    assert_eq!(context_for(" \n\n"), None);
    assert_eq!(
        context_for("### a\n\n"),
        Some(
            "Relevant entries from the pos108 memory store (retrieved automatically for this prompt — \
             they may be stale, verify before relying on them):\n\n### a\n\n"
                .to_owned()
        )
    );
}
