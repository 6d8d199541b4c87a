use oxi::json::{clone_entries, Json};
use oxi::tool_calls::{Step, ToolCall, ToolParser};

fn to_json(v: &serde_json::Value) -> Json {
    match v {
        serde_json::Value::Null => Json::Null,
        serde_json::Value::Bool(b) => Json::Bool(*b),
        serde_json::Value::Number(n) => Json::Number(n.to_string().chars().collect(), n.as_i64()),
        serde_json::Value::String(s) => Json::Str(s.chars().collect()),
        serde_json::Value::Array(items) => Json::Array(items.iter().map(to_json).collect()),
        serde_json::Value::Object(map) => Json::Object(
            map.iter()
                .map(|(k, v)| (k.chars().collect(), to_json(v)))
                .collect(),
        ),
    }
}

fn to_value(j: &Json) -> serde_json::Value {
    match j {
        Json::Null => serde_json::Value::Null,
        Json::Bool(b) => serde_json::Value::Bool(*b),
        Json::Number(t, _) => serde_json::from_str(&t.iter().collect::<String>()).unwrap(),
        Json::Str(s) => serde_json::Value::String(s.iter().collect()),
        Json::Array(items) => serde_json::Value::Array(items.iter().map(to_value).collect()),
        Json::Object(e) => serde_json::Value::Object(
            e.iter().map(|(k, v)| (k.iter().collect::<String>(), to_value(v))).collect(),
        ),
    }
}

fn tools_list() -> Vec<String> {
    ["get_temperature", "get_conditions", "say_hello", "say_hello_world", "get_address", "add"]
        .iter()
        .map(|s| s.to_string())
        .collect()
}

/// Runs one `add_text`.
fn add(p: &mut ToolParser, s: &str) -> (Vec<ToolCall>, String) {
    p.add_text(s)
}

#[test]
fn parser_cases() {
    let qwen = "{{if .ToolCalls}}<tool_call>{{range .ToolCalls}}{\"name\": \"{{.Function.Name}}\",\"arguments\": {{.Function.Arguments}}}{{end}}</tool_call>{{end}}";
    let deepseek = "{{if .ToolCalls}}<|tool▁calls▁begin|>{{range .ToolCalls}}<|tool▁call▁begin|>function<|tool▁sep|>get_current_weather\n```json\n{\"location\": \"Tokyo\"}\n```<|tool▁call▁end|>{{end}}<|tool▁calls▁end|><|end▁of▁sentence|>{{end}}";
    let json_tmpl = "{{if .ToolCalls}}{{range .ToolCalls}}{\"name\": \"{{.Function.Name}}\", \"arguments\": {{.Function.Arguments}}}{{end}}{{end}}";
    let list_tmpl = "{{if .ToolCalls}}[{{range .ToolCalls}}{\"name\": \"{{.Function.Name}}\", \"arguments\": {{.Function.Arguments}}}{{end}}]{{end}}";
    let mistral = "{{if .ToolCalls}}[TOOL_CALLS] [{{range .ToolCalls}}{\"name\": \"{{.Function.Name}}\", \"arguments\": {{.Function.Arguments}}}{{end}}][/TOOL_CALLS]{{end}}";
    let cases: Vec<(&str, Vec<&str>, &str, &str, Vec<(i32, &str, &str)>)> = vec![
        ("no tool calls - just text", vec!["Hello, how can I help you today?"], qwen, "Hello, how can I help you today?", vec![]),
        ("empty input", vec![""], qwen, "", vec![]),
        ("tool call", vec!["<tool_call>{\"name\": \"get_conditions\", \"arguments\": {\"location\": \"San Francisco\"}}</tool_call>"], qwen, "", vec![(0, "get_conditions", "{\"location\": \"San Francisco\"}")]),
        ("empty args", vec!["<tool_call>{\"name\": \"get_conditions\", \"arguments\": {}}</tool_call>"], qwen, "", vec![(0, "get_conditions", "{}")]),
        ("text before tool call", vec!["Let me check the weather. <tool_call>{\"name\": \"get_temperature\", \"arguments\": {\"city\": \"New York\"}}</tool_call>"], qwen, "Let me check the weather. ", vec![(0, "get_temperature", "{\"city\": \"New York\"}")]),
        ("qwen no args with text", vec!["Let me say hello to the user. I'll use the say_hello tool. "], qwen, "Let me say hello to the user. I'll use the say_hello tool. ", vec![]),
        ("two tool calls in a list", vec!["[TOOL_CALLS] [{\"name\": \"get_temperature\", \"arguments\": {\"city\": \"London\", \"format\": \"fahrenheit\"}}, {\"name\": \"get_conditions\", \"arguments\": {\"location\": \"Tokyo\"}}][/TOOL_CALLS]"], mistral, "", vec![(0, "get_temperature", "{\"city\": \"London\", \"format\": \"fahrenheit\"}"), (1, "get_conditions", "{\"location\": \"Tokyo\"}")]),
        ("qwen two tool calls", vec!["Okay, let's call both tools! <tool_call>{\"name\": \"get_temperature\", \"arguments\": {\"city\": \"London\", \"format\": \"fahrenheit\"}}</tool_call><tool_call>{\"name\": \"get_conditions\", \"arguments\": {\"location\": \"Tokyo\"}}</tool_call>"], qwen, "Okay, let's call both tools! ", vec![(0, "get_temperature", "{\"city\": \"London\", \"format\": \"fahrenheit\"}"), (1, "get_conditions", "{\"location\": \"Tokyo\"}")]),
        ("empty args followed by args", vec!["Let me say hello and check the weather. <tool_call>{\"name\": \"say_hello\", \"arguments\": {}}</tool_call><tool_call>{\"name\": \"get_temperature\", \"arguments\": {\"city\": \"London\", \"format\": \"fahrenheit\"}}</tool_call>"], qwen, "Let me say hello and check the weather. ", vec![(0, "say_hello", "{}"), (1, "get_temperature", "{\"city\": \"London\", \"format\": \"fahrenheit\"}")]),
        ("qwen empty followed by args", vec!["Let me check the weather. <tool_call>{\"name\": \"get_conditions\", \"arguments\": {}}</tool_call><tool_call>{\"name\": \"get_conditions\", \"arguments\": {\"location\": \"Tokyo\"}}"], qwen, "Let me check the weather. ", vec![(0, "get_conditions", "{}"), (1, "get_conditions", "{\"location\": \"Tokyo\"}")]),
        ("deepseek", vec!["<think>Wait, I need to call a tool</think><|tool▁calls▁begin|><|tool▁call▁begin|>function<|tool▁sep|>get_temperature\n```json\n{\"city\": \"Tokyo\"}\n```<|tool▁call▁end|><|tool▁calls▁end|><|end▁of▁sentence|>"], deepseek, "<think>Wait, I need to call a tool</think>", vec![(0, "get_temperature", "{\"city\": \"Tokyo\"}")]),
        ("deepseek incremental", vec!["<think>Wait", ", I need", " to call", " a tool</think><|too", "l▁calls▁begin|>", "<|tool▁call▁begin|>function<|tool▁sep|>get_temperature\n", "```json\n", "{\"city\": \"Tokyo\"}\n", "```", "<|tool▁call▁end|>", "<|tool▁calls▁end|>", "<|end▁of▁sentence|>"], deepseek, "<think>Wait, I need to call a tool</think>", vec![(0, "get_temperature", "{\"city\": \"Tokyo\"}")]),
        ("json", vec!["{", "\"name\": \"get_temperature\",", "\"arguments\": {", "\"city\": \"Tokyo\"", "}", "}"], json_tmpl, "", vec![(0, "get_temperature", "{\"city\": \"Tokyo\"}")]),
        ("json maybe a tool call", vec!["{", "\"name\": \"get_temperature\",", "\"arguments\": {"], json_tmpl, "", vec![]),
        ("json not a tool call", vec!["{", "\"name\": \"search\", ", "\"arguments\": {", "\"query\": \"What is the capital of Canada?\"", "}", "}"], json_tmpl, "{\"name\": \"search\", \"arguments\": {\"query\": \"What is the capital of Canada?\"}}", vec![]),
        ("json object followed by tool call", vec!["{\"name\": \"jeff\"}", "{\"name\": \"get_conditions\", \"arguments\": {\"location\": \"San Francisco\"}}"], json_tmpl, "{\"name\": \"jeff\"}{\"name\": \"get_conditions\", \"arguments\": {\"location\": \"San Francisco\"}}", vec![]),
        ("json object followed by tool call split", vec!["{\"name\": \"jeff\"} {", "\"name\": \"get_conditions\", \"arguments\": {\"location\": \"San Francisco\"}}"], json_tmpl, "{\"name\": \"jeff\"} {\"name\": \"get_conditions\", \"arguments\": {\"location\": \"San Francisco\"}}", vec![]),
        ("json code", vec!["for { fmt.Println(\"hello\") }"], json_tmpl, "for { fmt.Println(\"hello\") }", vec![]),
        ("list multiple", vec!["[", "{", "\"name\": \"get_temperature\", ", "\"arguments\": {", "\"city\": \"London\"", "}", "},", "{", "\"name\": \"get_conditions\", ", "\"arguments\": {", "\"location\": \"Tokyo\"", "}", "}]"], list_tmpl, "", vec![(0, "get_temperature", "{\"city\": \"London\"}"), (1, "get_conditions", "{\"location\": \"Tokyo\"}")]),
        ("list partial", vec!["[{", "\"name\": \"get_conditions\", ", "\"arguments\": {", "\"location\": \"Tokyo\"", "}", "}"], list_tmpl, "", vec![(0, "get_conditions", "{\"location\": \"Tokyo\"}")]),
        ("list invalid", vec!["[", "{", "\"name\": \"search\", ", "\"arguments\": {", "\"query\": \"What is the capital of Canada?\"", "}", "}"], list_tmpl, "", vec![]),
        ("list trailing ]", vec!["[", "{", "\"name\": \"get_conditions\", ", "\"arguments\": {", "\"location\": \"Tokyo\"", "}", "}", "]", "]"], list_tmpl, "", vec![(0, "get_conditions", "{\"location\": \"Tokyo\"}")]),
        ("list not a tool call", vec!["[special", " del", "ivery]"], list_tmpl, "[special delivery]", vec![]),
        ("tool name with collision", vec!["<tool_call>", "{", "\"name\": \"say_hello", "_world\",", "\"arguments\": {}}", "}"], qwen, "", vec![(0, "say_hello_world", "{}")]),
        ("tool name with collision multiple", vec!["<tool_call>", "{", "\"name\": \"say_hello", "_world\",", "\"arguments\": {}}", "</tool_call>", "<tool_call>", "{", "\"name\": \"say_hello\",", "\"arguments\": {}}", "</tool_call>"], qwen, "", vec![(0, "say_hello_world", "{}"), (1, "say_hello", "{}")]),
        ("tool name with collision non streaming", vec!["<tool_call>{\"name\": \"say_hello"], qwen, "", vec![]),
        ("tool name with collision non streaming multiple", vec!["<tool_call>{\"name\": \"say_hello\", \"arguments\": {}}</tool_call><tool_call>{\"name\": \"say_hello_world\", \"arguments\": {}}"], qwen, "", vec![(0, "say_hello", "{}"), (1, "say_hello_world", "{}")]),
        ("tool name with collision non streaming shorter", vec!["<tool_call>{\"name\": \"say_hello\", \"arguments\": {}}</tool_call>"], qwen, "", vec![(0, "say_hello", "{}")]),
        ("tool name with collision non streaming longer", vec!["<tool_call>{\"name\": \"say_hello_world\", \"arguments\": {}}</tool_call>"], qwen, "", vec![(0, "say_hello_world", "{}")]),
        ("tool name with substring of another json", vec!["{", "\"name\": \"get_address\",", "\"arguments\": {", "\"location\": \"London\"", "}", "}"], json_tmpl, "", vec![(0, "get_address", "{\"location\": \"London\"}")]),
        ("tool name with substring of another", vec!["<tool_call>{\"name\": \"get_address\", \"arguments\": {\"location\": \"London\"}}</tool_call>"], qwen, "", vec![(0, "get_address", "{\"location\": \"London\"}")]),
        ("args before name", vec!["<tool_call>{\"arguments\": {\"a\": \"5\", \"b\": \"10\"}, \"name\": \"add\"}</tool_call>"], qwen, "", vec![(0, "add", "{\"a\": \"5\", \"b\": \"10\"}")]),
    ];
    for (name, inputs, tmpl, content, calls) in cases {
        let mut parser = ToolParser::new(tmpl, tools_list());
        let mut got_calls = Vec::new();
        let mut got_content = String::new();
        for inp in inputs {
            let (c, cont) = add(&mut parser, inp);
            got_calls.extend(c);
            got_content.push_str(&cont);
        }
        assert_eq!(got_content, content, "{}", name);
        assert_eq!(got_calls.len(), calls.len(), "{}", name);
        for (got, (index, fname, args)) in got_calls.iter().zip(calls.iter()) {
            assert_eq!(got.index, *index, "{}", name);
            assert_eq!(got.name, *fname, "{}", name);
            let want: serde_json::Value = serde_json::from_str(args).unwrap();
            let have = serde_json::Value::Object(
                got.arguments
                    .iter()
                    .map(|(k, v)| (k.iter().collect::<String>(), to_value(v)))
                    .collect(),
            );
            assert_eq!(have, want, "{}", name);
        }
    }
}

#[test]
fn parser_done_tests() {
    let cases = vec![
        ("empty", "<tool_call>", "", false),
        ("json open", "{", "{\"name\": \"get_weather\"", false),
        ("json closed", "{", "{\"name\": \"get_weather\"}", true),
        ("json empty", "{", "{}", true),
        ("list open", "[", "[{\"name\": \"get_weather\"", false),
        ("list closed", "[", "[{\"name\": \"get_weather\"}]", true),
        ("list empty", "[", "[]", true),
    ];
    for (name, tag, buffer, want) in cases {
        let mut p = ToolParser::new_with_tag(tools_list(), tag.to_string());
        p.set_buffer(buffer.as_bytes());
        assert_eq!(p.done(), want, "{}", name);
    }
}

#[test]
fn content_is_the_buffer_with_bracket_tag() {
    let mut p = ToolParser::new_with_tag(tools_list(), "{".to_string());
    p.set_buffer(b"{\"x\": 1}");
    assert_eq!(p.content(), "{\"x\": 1}");
    let (calls, _) = add(&mut p, "");
    assert!(calls.is_empty());
}

#[test]
fn unbalanced_close_is_forgotten() {
    let mut p = ToolParser::new_with_tag(tools_list(), "[".to_string());
    p.set_buffer(b"]{[");
    assert!(!p.done());
}

#[test]
fn step_by_step_matches_add_text() {
    let out = "<tool_call>{\"name\": \"get_conditions\", \"arguments\": {\"location\": \"Paris\"}}</tool_call>";
    let mut p = ToolParser::new_with_tag(tools_list(), "<tool_call>".to_string());
    let mut step = p.add(out);
    let (calls, content) = loop {
        match step {
            Step::Finished(calls, content) => break (calls, content),
            Step::Parse(a, b) => {
                let bytes = p.get_buffer()[a..=b].to_vec();
                let parsed = serde_json::from_slice::<serde_json::Map<String, serde_json::Value>>(&bytes)
                    .ok()
                    .map(|m| m.iter().map(|(k, v)| (k.chars().collect(), to_json(v))).collect());
                step = p.resume(parsed);
            }
        }
    };
    let mut q = ToolParser::new_with_tag(tools_list(), "<tool_call>".to_string());
    let (calls2, content2) = q.add_text(out);
    assert_eq!(calls.len(), 1);
    assert_eq!(calls2.len(), 1);
    assert_eq!(calls[0].name, calls2[0].name);
    assert_eq!(to_value(&Json::Object(clone_entries(&calls[0].arguments))), to_value(&Json::Object(clone_entries(&calls2[0].arguments))));
    assert_eq!(content, content2);
    assert_eq!(q.calls_made(), 1);
}
