use oxi::template::{
    collate, legacy_turns, named, pick_best, render_mode, source_with_response, template_vars, ChatMessage,
    Error, NamedTemplate, RenderMode, TemplateParameters,
};

fn msg(role: &str, content: &str) -> ChatMessage {
    ChatMessage { role: role.to_string(), content: content.to_string() }
}

fn known(name: &str, template: &str) -> NamedTemplate {
    NamedTemplate::new(name.to_string(), template.to_string(), template, None)
}

#[test]
fn parse_and_vars() {
    let vars = template_vars("{{ .Prompt }} {{ .Response }}");
    assert!(vars.contains(&"prompt".into()));
    assert!(vars.contains(&"response".into()));
}

#[test]
fn vars_are_sorted_lowercase_and_unique() {
    let vars = template_vars("{{ .System }}{{ range .Messages }}{{ .Role }}{{ .role }}{{ end }} a..b .9x .Tools_2");
    assert_eq!(vars, vec!["b", "messages", "role", "system", "tools_2"]);
    assert!(template_vars("no variables here").is_empty());
}

#[test]
fn source_gets_a_response_only_when_it_names_none() {
    assert_eq!(source_with_response("{{ .Prompt }}"), "{{ .Prompt }}{{ .Response }}");
    assert_eq!(source_with_response("{{ .Prompt }} {{ .Response }}"), "{{ .Prompt }} {{ .Response }}");
    assert_eq!(source_with_response("{{ range .Messages }}{{ end }}"), "{{ range .Messages }}{{ end }}");
}

#[test]
fn render_mode_prefers_infill_then_messages() {
    assert_eq!(render_mode("p", "s", false, "{{ .Messages }}"), RenderMode::Infill);
    assert_eq!(render_mode("p", "", false, "{{ .Messages }}"), RenderMode::Messages);
    assert_eq!(render_mode("p", "", true, "{{ .Messages }}"), RenderMode::Legacy);
    assert_eq!(render_mode("", "", false, "{{ .Prompt }}"), RenderMode::Legacy);
}

#[test]
fn named_lookup() {
    let templates = vec![known("chatml", "<|im_start|>{{ .Prompt }}"), known("llama", "[INST] {{ .Prompt }} [/INST]")];
    let tpl = named(&templates[0].template, &templates);
    assert!(tpl.is_ok());
    assert_eq!(tpl.unwrap().name, "chatml");
    let near = named("[INST]{{ .Prompt }}[/INST]", &templates).unwrap();
    assert_eq!(near.name, "llama");
}

#[test]
fn named_refuses_far_templates() {
    let templates = vec![known("short", "x")];
    let far = "y".repeat(150);
    assert!(matches!(named(&far, &templates), Err(Error::NoMatchingTemplate)));
    assert!(matches!(named("x", &[]), Err(Error::NoMatchingTemplate)));
    assert_eq!(Error::NoMatchingTemplate.to_string(), "no matching template found");
    assert_eq!(Error::MissingTemplate("a.gotmpl".into()).to_string(), "template not found: a.gotmpl");
}

#[test]
fn pick_best_takes_the_first_least_below_a_hundred() {
    assert_eq!(pick_best(&[5, 3, 3, 9]), Some(1));
    assert_eq!(pick_best(&[100, 200]), None);
    assert_eq!(pick_best(&[]), None);
    assert_eq!(pick_best(&[99]), Some(0));
}

#[test]
fn named_template_bytes_have_unix_line_ends() {
    let t = NamedTemplate::new(
        "n".into(),
        "t".into(),
        "a\r\nb\rc\r\n",
        Some(TemplateParameters { stop: vec!["<eos>".into()] }),
    );
    assert_eq!(t.bytes(), b"a\nb\rc\n");
    let d = t.duplicate();
    assert_eq!(d.bytes(), b"a\nb\rc\n");
    assert_eq!(d.parameters.unwrap().stop, vec!["<eos>".to_string()]);
    assert!(TemplateParameters::default().stop.is_empty());
}

#[test]
fn collate_joins_runs_and_system_texts() {
    let c = collate(&[
        msg("system", "s1"),
        msg("system", "s2"),
        msg("user", "hi"),
        msg("user", "there"),
        msg("tool", "a"),
        msg("tool", "b"),
        msg("assistant", "hello"),
    ]);
    assert_eq!(c.system, "s1\n\ns2");
    let runs: Vec<(String, String, usize)> = c
        .messages
        .iter()
        .zip(c.first.iter())
        .map(|(m, f)| (m.role.clone(), m.content.clone(), *f))
        .collect();
    assert_eq!(
        runs,
        vec![
            ("system".to_string(), "s1\n\ns2".to_string(), 0),
            ("user".to_string(), "hi\n\nthere".to_string(), 2),
            ("tool".to_string(), "a".to_string(), 4),
            ("tool".to_string(), "b".to_string(), 5),
            ("assistant".to_string(), "hello".to_string(), 6),
        ]
    );
}

#[test]
fn legacy_turns_close_on_new_prompts() {
    let c = collate(&[msg("system", "sys"), msg("user", "q1"), msg("assistant", "a1"), msg("user", "q2")]);
    let turns: Vec<(String, String, String)> = legacy_turns(&c.system, &c.messages)
        .into_iter()
        .map(|t| (t.system, t.prompt, t.response))
        .collect();
    assert_eq!(
        turns,
        vec![
            ("sys".to_string(), "q1".to_string(), "a1".to_string()),
            (String::new(), "q2".to_string(), String::new()),
        ]
    );
    assert!(legacy_turns("", &[]).is_empty());
    let last_answer_dropped = legacy_turns("", &[msg("user", "q"), msg("assistant", "a")]);
    assert_eq!(last_answer_dropped.len(), 1);
    assert_eq!(last_answer_dropped[0].response, "");
}

#[test]
fn source_with_response_is_stable() {
    for src in ["{{ .Prompt }}", "", "{{ .System }}.", "{{ range .Messages }}{{ end }}"] {
        let once = source_with_response(src);
        assert_eq!(source_with_response(&once), once);
    }
}

#[test]
fn template_contains_cases() {
    assert!(oxi::template::template_contains("{{ .Prompt }}", ".Prompt"));
    assert!(oxi::template::template_contains("abc", ""));
    assert!(!oxi::template::template_contains("abc", "abd"));
    assert!(!oxi::template::template_contains("", "a"));
}
