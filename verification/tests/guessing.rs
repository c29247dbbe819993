use rust_exercises::guessing::{draw_secret, judge_guess, read_guess, Verdict};

#[test]
fn secret_is_in_range() {
    for _ in 0..200 {
        let s = draw_secret();
        assert!(1 <= s && s < 50);
    }
}

#[test]
fn guesses_are_judged() {
    assert_eq!(judge_guess(10, 10), Verdict::Correct);
    assert_eq!(judge_guess(5, 10), Verdict::Greater);
    assert_eq!(judge_guess(15, 10), Verdict::Smaller);
}

#[test]
fn guesses_are_read() {
    assert_eq!(read_guess(" 42\n"), Some(42));
    assert_eq!(read_guess("+7"), Some(7));
    assert_eq!(read_guess("forty"), None);
    assert_eq!(read_guess("-1"), None);
    assert_eq!(read_guess("4294967296"), None);
}
