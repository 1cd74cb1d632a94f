use sha1::Digest;
use vim_golf_judge::challenge::{Challenge, Submission, TextBlock};
use vim_golf_judge::codec::encode_record;
use vim_golf_judge::judge::{
    close_ranking, judge_submission, register, strip_backticks, EngineError, SubmissionResult,
};
use vim_golf_judge::store::{challenge_id, create, filename, most_recent};

fn lines_of(text: &str) -> Vec<String> {
    text.lines().map(|l| l.to_string()).collect()
}

fn sample_challenge() -> Challenge {
    let input = TextBlock::new(Some("vim".to_string()), vec!["hello world".to_string()]);
    let output = TextBlock::new(Some("text".to_string()), vec!["hello".to_string()]);
    create("t".to_string(), input, output, &"a".to_string(), 1000)
}

#[test]
fn id_is_deterministic() {
    let first = challenge_id(&"a".to_string(), 1000, &"t".to_string());
    let second = challenge_id(&"a".to_string(), 1000, &"t".to_string());
    assert_eq!(first, second);
    assert_eq!(first.len(), 6);
    assert!(first.chars().all(|c| c.is_ascii_hexdigit() && !c.is_ascii_uppercase()));
}

#[test]
fn id_depends_on_every_input() {
    let base = challenge_id(&"a".to_string(), 1000, &"t".to_string());
    assert_ne!(base, challenge_id(&"b".to_string(), 1000, &"t".to_string()));
    assert_ne!(base, challenge_id(&"a".to_string(), 1001, &"t".to_string()));
    assert_ne!(base, challenge_id(&"a".to_string(), 1000, &"u".to_string()));
}

#[test]
fn id_comes_from_the_digest() {
    let mut bytes: Vec<u8> = Vec::new();
    bytes.extend_from_slice("a".as_bytes());
    bytes.extend_from_slice("1000".as_bytes());
    bytes.extend_from_slice("t".as_bytes());
    let digest = sha1::Sha1::digest(&bytes);
    let expected: String = digest.iter().take(3).map(|b| format!("{:02x}", b)).collect();
    assert_eq!(challenge_id(&"a".to_string(), 1000, &"t".to_string()), expected);
}

#[test]
fn accepted_submission_is_recorded() {
    let mut chall = sample_challenge();
    let result = judge_submission(
        &mut chall,
        "alice".to_string(),
        "d$".to_string(),
        &"d$".to_string(),
        vec!["hello".to_string()],
        "".to_string(),
    );
    assert!(matches!(result, SubmissionResult::Accepted(2)));
    assert_eq!(chall.submissions.len(), 1);
    assert_eq!(chall.submissions[0].author, "alice");
    assert_eq!(chall.submissions[0].keys, "d$");
    assert_eq!(chall.submissions[0].score, 2);
}

#[test]
fn noop_keys_are_rejected_and_nothing_changes() {
    let mut chall = sample_challenge();
    let before = encode_record(&chall);
    let result = judge_submission(
        &mut chall,
        "alice".to_string(),
        "jk".to_string(),
        &"jk".to_string(),
        vec!["hello world".to_string()],
        "".to_string(),
    );
    match result {
        SubmissionResult::Rejected(lines, error) => {
            assert_eq!(lines, vec!["hello world".to_string()]);
            assert_eq!(error, "");
        },
        SubmissionResult::Accepted(_) => panic!("a mismatch must not be accepted"),
    }
    assert_eq!(encode_record(&chall), before);
}

#[test]
fn score_counts_bytes_of_translated_keys() {
    let mut chall = sample_challenge();
    let translated = "\u{e9}".to_string();
    assert_eq!(translated.chars().count(), 1);
    assert_eq!(translated.len(), 2);
    let result = judge_submission(
        &mut chall,
        "alice".to_string(),
        "raw".to_string(),
        &translated,
        vec!["hello".to_string()],
        "".to_string(),
    );
    assert!(matches!(result, SubmissionResult::Accepted(2)));
    assert_eq!(chall.submissions[0].score, 2);
}

#[test]
fn two_accepted_submissions_both_recorded() {
    let mut chall = sample_challenge();
    let first = judge_submission(
        &mut chall,
        "alice".to_string(),
        "d$".to_string(),
        &"d$".to_string(),
        vec!["hello".to_string()],
        "".to_string(),
    );
    let second = judge_submission(
        &mut chall,
        "bob".to_string(),
        "D".to_string(),
        &"D".to_string(),
        vec!["hello".to_string()],
        "".to_string(),
    );
    assert!(matches!(first, SubmissionResult::Accepted(2)));
    assert!(matches!(second, SubmissionResult::Accepted(1)));
    assert_eq!(chall.submissions.len(), 2);
    assert_eq!(chall.submissions[0].author, "alice");
    assert_eq!(chall.submissions[1].author, "bob");
}

#[test]
fn ranking_is_stable_ascending_top_five() {
    let mut chall = sample_challenge();
    let entries = [("a", 5usize), ("b", 3), ("c", 3), ("d", 7), ("e", 1)];
    for (author, score) in entries.iter() {
        chall.submissions.push(Submission {
            author: author.to_string(),
            keys: "k".to_string(),
            score: *score,
        });
    }
    let ranked = close_ranking(&chall);
    let scores: Vec<usize> = ranked.iter().map(|s| s.score).collect();
    assert_eq!(scores, vec![1, 3, 3, 5, 7]);
    let authors: Vec<&str> = ranked.iter().map(|s| s.author.as_str()).collect();
    assert_eq!(authors, vec!["e", "b", "c", "a", "d"]);
}

#[test]
fn ranking_keeps_only_five() {
    let mut chall = sample_challenge();
    for score in [9usize, 8, 7, 6, 5, 4, 3].iter() {
        chall.submissions.push(Submission {
            author: "x".to_string(),
            keys: "k".to_string(),
            score: *score,
        });
    }
    let ranked = close_ranking(&chall);
    let scores: Vec<usize> = ranked.iter().map(|s| s.score).collect();
    assert_eq!(scores, vec![3, 4, 5, 6, 7]);
}

#[test]
fn register_builds_a_persistable_challenge() {
    let text = "register\n\n# My Challenge\n```vim\nhello world\n```\n```text\nhello\n```\n";
    let chall = register(&lines_of(text), &"a".to_string(), 1000).unwrap();
    assert_eq!(chall.title, "My Challenge");
    assert_eq!(chall.input.content, vec!["hello world".to_string()]);
    assert_eq!(chall.output.content, vec!["hello".to_string()]);
    assert_eq!(chall.created_at, 1000);
    assert_eq!(chall.id.len(), 6);
    assert!(chall.submissions.is_empty());
}

#[test]
fn register_rejects_empty_content() {
    let text = "register\n\n# Missing blocks\nno fences here\n";
    match register(&lines_of(text), &"a".to_string(), 1000) {
        Err(EngineError::EmptyChallengeContent) => {},
        _ => panic!("register must reject a challenge without content"),
    }
    let half = "register\n# T\n```vim\nonly input\n```\n";
    assert!(register(&lines_of(half), &"a".to_string(), 1000).is_err());
}

#[test]
fn backtick_quoting_is_stripped_once() {
    assert_eq!(strip_backticks(&"`d$`".to_string()), "d$");
    assert_eq!(strip_backticks(&"d$".to_string()), "d$");
    assert_eq!(strip_backticks(&"`d$".to_string()), "d$");
    assert_eq!(strip_backticks(&"d$`".to_string()), "d$");
    assert_eq!(strip_backticks(&"``d$``".to_string()), "`d$`");
    assert_eq!(strip_backticks(&"`".to_string()), "");
    assert_eq!(strip_backticks(&"".to_string()), "");
}

#[test]
fn most_recent_picks_greatest_creation_time() {
    assert!(most_recent(Vec::new()).is_none());
    let older = sample_challenge();
    let mut newer = sample_challenge();
    newer.created_at = 2000;
    newer.id = "facade".to_string();
    let picked = most_recent(vec![older, newer]).unwrap();
    assert_eq!(picked.id, "facade");
    assert_eq!(picked.created_at, 2000);
}

#[test]
fn filename_is_keyed_by_id() {
    assert_eq!(filename(&"abc123".to_string()), "challenge_abc123.golf");
}
