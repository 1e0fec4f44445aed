use ab::command::{
    is_placeholder, join_words, parse_args, resolve_commands, shlex_quote, split_params,
    UsageError,
};

fn strings(words: &[&str]) -> Vec<String> {
    words.iter().map(|w| w.to_string()).collect()
}

#[test]
fn split_params_on_commas() {
    assert_eq!(split_params("a,b"), strings(&["a", "b"]));
    assert_eq!(split_params("opt-A"), strings(&["opt-A"]));
    assert_eq!(split_params(""), strings(&[""]));
    assert_eq!(split_params("a,,b,"), strings(&["a", "", "b", ""]));
    assert_eq!(split_params("é,ü"), strings(&["é", "ü"]));
}

#[test]
fn placeholder_is_exact_word() {
    assert!(is_placeholder("{}"));
    assert!(!is_placeholder("{}x"));
    assert!(!is_placeholder("{"));
    assert!(!is_placeholder(""));
}

#[test]
fn resolve_scenario_two_candidates() {
    let args = strings(&["a,b", "echo", "{}"]);
    let inv = match parse_args(&args) {
        Ok(inv) => inv,
        Err(_) => panic!("expected a parsed invocation"),
    };
    assert_eq!(inv.params, strings(&["a", "b"]));
    assert_eq!(inv.template, strings(&["echo", "{}"]));
    assert_eq!(inv.programs, vec![strings(&["echo", "a"]), strings(&["echo", "b"])]);
}

#[test]
fn resolve_replaces_every_placeholder_word_only() {
    let programs = resolve_commands(&strings(&["x", ""]), &strings(&["run", "{}", "--n={}", "{}"]));
    assert_eq!(
        programs,
        vec![strings(&["run", "x", "--n={}", "x"]), strings(&["run", "", "--n={}", ""])]
    );
}

#[test]
fn missing_template_is_usage_error() {
    assert!(matches!(parse_args(&strings(&["a,b"])), Err(UsageError::MissingProgram)));
    assert!(matches!(parse_args(&Vec::new()), Err(UsageError::MissingProgram)));
}

#[test]
fn shlex_quote_keeps_placeholder_and_quotes_words() {
    assert_eq!(shlex_quote(&strings(&["echo", "{}"])), "echo {}");
    assert_eq!(shlex_quote(&strings(&["echo", "a b", "{}"])), "echo 'a b' {}");
    assert_eq!(shlex_quote(&strings(&["sh", "-c", "it's"])), "sh -c 'it'\\''s'");
    assert_eq!(shlex_quote(&strings(&["x", ""])), "x ''");
    assert_eq!(shlex_quote(&Vec::new()), "");
    assert_eq!(shlex_quote(&strings(&["echo", "hi!"])), "echo 'hi'\\!''");
    assert_eq!(
        shlex_quote(&strings(&["cargo", "build", "--jobs=4", "{}", "a/b.c,d+e_f"])),
        "cargo build --jobs=4 {} a/b.c,d+e_f"
    );
}

#[test]
fn join_words_with_single_spaces() {
    assert_eq!(join_words(&strings(&["a", "b", "c"])), "a b c");
    assert_eq!(join_words(&strings(&["solo"])), "solo");
    assert_eq!(join_words(&strings(&["", ""])), " ");
}
