use vim_golf_judge::challenge::{Challenge, Submission, TextBlock};
use vim_golf_judge::codec::{decode_record, encode_record};
use vim_golf_judge::store::create;

fn sample_challenge() -> Challenge {
    let input = TextBlock::new(Some("vim".to_string()), vec!["hello world".to_string()]);
    let output = TextBlock::new(None, vec!["hello".to_string(), "".to_string()]);
    let mut chall = create("A \\ tricky\ntitle".to_string(), input, output, &"a".to_string(), -42);
    chall.submissions.push(Submission {
        author: "alice".to_string(),
        keys: "d$`x".to_string(),
        score: 4,
    });
    chall.submissions.push(Submission {
        author: "bob\nnewline".to_string(),
        keys: "".to_string(),
        score: 0,
    });
    chall
}

fn assert_same(a: &Challenge, b: &Challenge) {
    assert_eq!(a.id, b.id);
    assert_eq!(a.title, b.title);
    assert_eq!(a.created_at, b.created_at);
    assert_eq!(a.input.language, b.input.language);
    assert_eq!(a.input.content, b.input.content);
    assert_eq!(a.output.language, b.output.language);
    assert_eq!(a.output.content, b.output.content);
    assert_eq!(a.submissions.len(), b.submissions.len());
    for (x, y) in a.submissions.iter().zip(b.submissions.iter()) {
        assert_eq!(x.author, y.author);
        assert_eq!(x.keys, y.keys);
        assert_eq!(x.score, y.score);
    }
}

#[test]
fn record_round_trip() {
    let chall = sample_challenge();
    let text = encode_record(&chall);
    let back = decode_record(text.as_str()).expect("a written record must read back");
    assert_same(&chall, &back);
    assert_eq!(encode_record(&back), text);
}

#[test]
fn record_round_trip_of_minimal_challenge() {
    let input = TextBlock::new(None, vec!["x".to_string()]);
    let output = TextBlock::new(None, vec!["y".to_string()]);
    let chall = create("t".to_string(), input, output, &"a".to_string(), 0);
    let text = encode_record(&chall);
    let back = decode_record(text.as_str()).expect("a written record must read back");
    assert_same(&chall, &back);
}

#[test]
fn garbage_does_not_decode() {
    assert!(decode_record("").is_none());
    assert!(decode_record("no terminators at all").is_none());
    assert!(decode_record("just\none\nfield\n").is_none());
}

#[test]
fn truncated_record_does_not_decode() {
    let text = encode_record(&sample_challenge());
    let cut = &text[..text.len() - 2];
    assert!(decode_record(cut).is_none());
}

#[test]
fn trailing_garbage_does_not_decode() {
    let mut text = encode_record(&sample_challenge());
    text.push_str("extra\n");
    assert!(decode_record(text.as_str()).is_none());
}
