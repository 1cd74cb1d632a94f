use vim_golf_judge::parser::extract_content;

fn lines_of(text: &str) -> Vec<String> {
    text.lines().map(|l| l.to_string()).collect()
}

#[test]
fn parsing_is_deterministic() {
    let text = "register\n\n# Title\n\nprose\n```vim\nfoo\n```\n\n```text\nbar\n```\n";
    let a = extract_content(&lines_of(text));
    let b = extract_content(&lines_of(text));
    assert_eq!(a.0, b.0);
    assert_eq!(a.1.language, b.1.language);
    assert_eq!(a.1.content, b.1.content);
    assert_eq!(a.2.language, b.2.language);
    assert_eq!(a.2.content, b.2.content);
}

#[test]
fn titled_two_blocks() {
    let text = "register\n\n# My Challenge\n\nInput:\n```vim\nhello world\nsecond\n```\n\nOutput:\n```text\nhello\n```\n";
    let (title, input, output) = extract_content(&lines_of(text));
    assert_eq!(title, "My Challenge");
    assert_eq!(input.language.as_deref(), Some("vim"));
    assert_eq!(input.content, vec!["hello world".to_string(), "second".to_string()]);
    assert_eq!(output.language.as_deref(), Some("text"));
    assert_eq!(output.content, vec!["hello".to_string()]);
}

#[test]
fn headless_fence_opens_input() {
    let text = "register\n\n```\nalpha\nbeta\n```\n```\ngamma\n```\n";
    let (title, input, output) = extract_content(&lines_of(text));
    assert_eq!(title, "No title");
    assert_eq!(input.language, None);
    assert_eq!(input.content, vec!["alpha".to_string(), "beta".to_string()]);
    assert_eq!(output.content, vec!["gamma".to_string()]);
}

#[test]
fn third_block_is_ignored() {
    let text = "register\n\n# T\n```vim\nin\n```\n```text\nout\n```\n```extra\nspurious\n```\n";
    let (_, input, output) = extract_content(&lines_of(text));
    assert_eq!(input.content, vec!["in".to_string()]);
    assert_eq!(output.content, vec!["out".to_string()]);
    assert_eq!(output.language.as_deref(), Some("text"));
}

#[test]
fn empty_lines_kept_inside_blocks() {
    let text = "register\n# T\n```\na\n\nb\n```\n```\nc\n```\n";
    let (_, input, _) = extract_content(&lines_of(text));
    assert_eq!(input.content, vec!["a".to_string(), "".to_string(), "b".to_string()]);
}

#[test]
fn missing_blocks_come_back_empty() {
    let text = "register\n\njust prose, no fences\n";
    let (title, input, output) = extract_content(&lines_of(text));
    assert_eq!(title, "No title");
    assert!(input.content.is_empty());
    assert!(output.content.is_empty());
}

#[test]
fn title_is_trimmed() {
    let text = "register\n# Spaced out \n```\nx\n```\n```\ny\n```\n";
    let (title, _, _) = extract_content(&lines_of(text));
    assert_eq!(title, "Spaced out");
}

#[test]
fn language_is_first_token() {
    let text = "register\n# T\n``` vim extra words\nx\n```\n```text\ny\n```\n";
    let (_, input, output) = extract_content(&lines_of(text));
    assert_eq!(input.language.as_deref(), Some("vim"));
    assert_eq!(output.language.as_deref(), Some("text"));
}
