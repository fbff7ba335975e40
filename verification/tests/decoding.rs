use dns_storage::dns_resolver::doh::{
    collect_fragments, dns_to_bytes, has_duplicate_markers, resolve, Answer, DNSResponse,
};
use dns_storage::dns_resolver::fragment::{parse_answer, Fragment};
use dns_storage::dns_resolver::reassembler::Reassembler;
use dns_storage::error::PipelineError;

fn response_of(answers: &[&str]) -> DNSResponse {
    DNSResponse { answer: answers.iter().map(|a| Answer { data: a.to_string() }).collect() }
}

fn fragment(marker: u64, payload: &str) -> Fragment {
    Fragment { marker, payload: payload.to_string() }
}

#[test]
fn parse_answer_reads_marker_and_payload() {
    assert_eq!(parse_answer("\"7:QUJD\""), Some(fragment(7, "QUJD")));
}

#[test]
fn parse_answer_drops_marker_that_is_no_number() {
    assert_eq!(parse_answer("\"x:QUJD\""), None);
    assert_eq!(parse_answer("\"a:QUJD\""), None);
    assert_eq!(parse_answer("\"1f:QUJD\""), None);
    assert_eq!(parse_answer("\"-1:QUJD\""), None);
    assert_eq!(parse_answer("\"+1:QUJD\""), None);
    assert_eq!(parse_answer("\" 1:QUJD\""), None);
}

#[test]
fn parse_answer_drops_empty_marker() {
    assert_eq!(parse_answer("\":QUJD\""), None);
}

#[test]
fn parse_answer_drops_answer_without_colon() {
    assert_eq!(parse_answer("\"garbage\""), None);
    assert_eq!(parse_answer("\"\""), None);
    assert_eq!(parse_answer("\"12\""), None);
}

#[test]
fn parse_answer_drops_answer_without_quotes() {
    assert_eq!(parse_answer("garbage"), None);
    assert_eq!(parse_answer("7:QUJD"), None);
    assert_eq!(parse_answer("\"7:QUJD"), None);
    assert_eq!(parse_answer("7:QUJD\""), None);
    assert_eq!(parse_answer("\""), None);
    assert_eq!(parse_answer(""), None);
}

#[test]
fn parse_answer_takes_off_one_pair_of_quotes_only() {
    assert_eq!(parse_answer("\"\"7:QUJD\"\""), None);
    assert_eq!(parse_answer("\"7:\"QUJD\"\""), Some(fragment(7, "\"QUJD\"")));
}

#[test]
fn parse_answer_splits_at_the_first_colon() {
    assert_eq!(parse_answer("\"1:a:b\""), Some(fragment(1, "a:b")));
    assert_eq!(parse_answer("\"1::\""), Some(fragment(1, ":")));
}

#[test]
fn parse_answer_reads_empty_payload() {
    assert_eq!(parse_answer("\"3:\""), Some(fragment(3, "")));
}

#[test]
fn parse_answer_reads_markers_with_leading_zeros() {
    assert_eq!(parse_answer("\"007:x\""), Some(fragment(7, "x")));
    assert_eq!(parse_answer("\"0:x\""), Some(fragment(0, "x")));
}

#[test]
fn parse_answer_reads_markers_beyond_sixteen_bits() {
    assert_eq!(parse_answer("\"65535:x\""), Some(fragment(65535, "x")));
    assert_eq!(parse_answer("\"65536:x\""), Some(fragment(65536, "x")));
    assert_eq!(parse_answer("\"18446744073709551615:x\""), Some(fragment(u64::MAX, "x")));
}

#[test]
fn parse_answer_drops_markers_beyond_sixty_four_bits() {
    assert_eq!(parse_answer("\"18446744073709551616:x\""), None);
}

#[test]
fn parse_answer_keeps_payload_of_any_characters() {
    assert_eq!(parse_answer("\"2:äö ü\""), Some(fragment(2, "äö ü")));
}

fn reassembler_of(fragments: &[Fragment]) -> Reassembler {
    let mut received = Reassembler::new();
    for f in fragments {
        received.accept(f.clone());
    }
    received
}

#[test]
fn reassembler_starts_empty() {
    let fresh = Reassembler::new();
    assert_eq!(fresh.text(), "");
    assert!(!fresh.has_duplicate_markers());
    assert_eq!(fresh.into_fragments(), Vec::<Fragment>::new());
}

#[test]
fn reassembler_keeps_order_and_arrival() {
    let received = reassembler_of(&[
        fragment(2, "first two"),
        fragment(0, "zero"),
        fragment(2, "second two"),
        fragment(1, "one"),
    ]);
    assert_eq!(
        received.into_fragments(),
        vec![fragment(0, "zero"), fragment(1, "one"), fragment(2, "first two"), fragment(2, "second two")]
    );
}

#[test]
fn reassembler_puts_fragments_at_either_end() {
    let received = reassembler_of(&[fragment(5, "e"), fragment(0, "a"), fragment(u64::MAX, "z"), fragment(3, "c")]);
    assert_eq!(
        received.into_fragments(),
        vec![fragment(0, "a"), fragment(3, "c"), fragment(5, "e"), fragment(u64::MAX, "z")]
    );
}

#[test]
fn reassembler_text_goes_by_marker() {
    assert_eq!(reassembler_of(&[fragment(5, "ab"), fragment(1, ""), fragment(9, "c"), fragment(0, "x")]).text(), "xabc");
    assert_eq!(reassembler_of(&[fragment(2, "c"), fragment(0, "a"), fragment(1, "b")]).text(), "abc");
}

#[test]
fn reassembler_finds_duplicate_markers() {
    assert!(reassembler_of(&[fragment(1, "x"), fragment(0, "a"), fragment(1, "y")]).has_duplicate_markers());
    assert!(reassembler_of(&[fragment(7, ""), fragment(7, "")]).has_duplicate_markers());
    assert!(!reassembler_of(&[fragment(1, "x"), fragment(0, "x"), fragment(2, "x")]).has_duplicate_markers());
    assert!(!reassembler_of(&[fragment(1, "x")]).has_duplicate_markers());
}

#[test]
fn resolve_orders_by_marker() {
    assert_eq!(resolve(&response_of(&["\"2:c\"", "\"0:a\"", "\"1:b\""])), "abc");
}

#[test]
fn resolve_of_no_answers_is_empty() {
    assert_eq!(resolve(&response_of(&[])), "");
}

#[test]
fn resolve_passes_over_noise() {
    assert_eq!(resolve(&response_of(&["\"1:b\"", "garbage", "\"0:a\""])), "ab");
    assert_eq!(resolve(&response_of(&["garbage", "\"x:QUJD\"", "\"v=spf1 -all\""])), "");
}

#[test]
fn resolve_is_the_same_with_noise_anywhere() {
    let clean = ["\"2:c\"", "\"0:a\"", "\"1:b\""];
    for at in 0..=clean.len() {
        let mut answers: Vec<&str> = clean.to_vec();
        answers.insert(at, "garbage");
        assert_eq!(resolve(&response_of(&answers)), resolve(&response_of(&clean)));
    }
}

#[test]
fn resolve_keeps_equal_markers_in_answer_order() {
    assert_eq!(resolve(&response_of(&["\"1:x\"", "\"0:a\"", "\"1:y\""])), "axy");
    assert_eq!(resolve(&response_of(&["\"1:y\"", "\"0:a\"", "\"01:x\""])), "ayx");
}

#[test]
fn resolve_does_not_notice_a_missing_marker() {
    assert_eq!(resolve(&response_of(&["\"2:c\"", "\"0:a\""])), "ac");
}

#[test]
fn resolve_orders_by_number_not_by_text() {
    assert_eq!(resolve(&response_of(&["\"10:k\"", "\"9:j\"", "\"100:l\"", "\"2:c\""])), "cjkl");
}

#[test]
fn resolve_orders_many_answers() {
    let mut answers: Vec<String> = Vec::new();
    let mut expected = String::new();
    for i in 0..500u32 {
        expected.push_str(&format!("<{}>", i));
    }
    // A fixed shuffle: 500 and 137 have no common divisor.
    for k in 0..500u32 {
        let i = (k * 137 + 11) % 500;
        answers.push(format!("\"{}:<{}>\"", i, i));
    }
    let refs: Vec<&str> = answers.iter().map(|a| a.as_str()).collect();
    assert_eq!(resolve(&response_of(&refs)), expected);
}

#[test]
fn dns_to_bytes_fails_on_malformed_text() {
    assert_eq!(dns_to_bytes(&response_of(&["\"0:!!!\""])), Err(PipelineError::Transcoding));
}

#[test]
fn dns_to_bytes_fails_on_corrupt_payload() {
    // Base64 of "not zstd", in two fragments.
    assert_eq!(dns_to_bytes(&response_of(&["\"1:IHpzdGQ=\"", "\"0:bm90\""])), Err(PipelineError::Codec));
}

#[test]
fn collect_fragments_drops_noise_and_sorts() {
    assert_eq!(
        collect_fragments(&response_of(&["\"2:c\"", "noise", "\"0:a\"", "\"2:d\"", "\"1:b\""])).into_fragments(),
        vec![fragment(0, "a"), fragment(1, "b"), fragment(2, "c"), fragment(2, "d")]
    );
    assert_eq!(collect_fragments(&response_of(&["noise"])).into_fragments(), Vec::<Fragment>::new());
}

#[test]
fn has_duplicate_markers_finds_a_marker_that_comes_twice() {
    assert!(has_duplicate_markers(&response_of(&["\"1:x\"", "\"0:a\"", "\"1:y\""])));
    assert!(has_duplicate_markers(&response_of(&["\"1:x\"", "\"01:x\""])));
    assert!(has_duplicate_markers(&response_of(&["\"0:a\"", "\"0:a\""])));
}

#[test]
fn has_duplicate_markers_finds_none_where_markers_differ() {
    assert!(!has_duplicate_markers(&response_of(&[])));
    assert!(!has_duplicate_markers(&response_of(&["\"0:a\""])));
    assert!(!has_duplicate_markers(&response_of(&["\"2:c\"", "\"0:a\"", "\"1:b\""])));
    assert!(!has_duplicate_markers(&response_of(&["garbage", "garbage", "\"0:a\""])));
}
