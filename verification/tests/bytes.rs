use leyden::bytes::decoded_lines;
use leyden::duration::Duration;
use leyden::store::load;

#[test]
fn a_file_is_read_line_by_line() {
    assert_eq!(decoded_lines(b"one\ntwo\n"), vec!["one", "two"]);
    assert_eq!(decoded_lines(b"one\ntwo"), vec!["one", "two"]);
    assert_eq!(decoded_lines(b"one\n\ntwo\n"), vec!["one", "", "two"]);
    assert_eq!(decoded_lines(b"\n"), vec![""]);
    assert!(decoded_lines(b"").is_empty());
}

#[test]
fn a_line_may_end_with_a_return() {
    assert_eq!(decoded_lines(b"one\r\ntwo\r\r\n"), vec!["one", "two\r"]);
    assert_eq!(decoded_lines(b"one\r"), vec!["one\r"]);
    assert_eq!(decoded_lines(b"o\rne\n"), vec!["o\rne"]);
}

#[test]
fn text_beyond_ascii_is_decoded() {
    assert_eq!(
        decoded_lines("80% → 40%\nnaïve\n🔋\n".as_bytes()),
        vec!["80% → 40%", "naïve", "🔋"]
    );
}

#[test]
fn a_file_reads_as_its_text_does() {
    for text in ["", "a", "a\n", "\r\n", "→\r\n\n\r", "x\ny\r", "\n\n\u{85}\n"] {
        let lines: Vec<&str> = text.lines().collect();
        assert_eq!(decoded_lines(text.as_bytes()), lines);
    }
}

#[test]
fn an_undecodable_line_is_skipped() {
    assert_eq!(decoded_lines(b"one\n\xff\xfe\ntwo\n"), vec!["one", "two"]);
    assert_eq!(decoded_lines(b"\xc3\r\ntwo"), vec!["two"]);
    assert_eq!(decoded_lines(b"one\nt\xc0wo"), vec!["one"]);
    assert_eq!(decoded_lines(b"\xed\xa0\x80\nok\n"), vec!["ok"]);
}

#[test]
fn a_history_is_read_past_an_undecodable_line() {
    let bytes = b"1780000000\t41.5\t-\tcharging\t\n\x80\n1780000030\t42\t-\tcharging\t\n";
    let (samples, _) = load(&decoded_lines(bytes), Duration::from_secs(1_780_000_060));
    let moments: Vec<i64> = samples.iter().map(|sample| sample.at).collect();
    assert_eq!(moments, vec![1_780_000_000, 1_780_000_030]);
}
