use dns_storage::data_compressor::{base64_to_bytes, bytes_to_dns};
use dns_storage::dns_resolver::doh::{dns_to_bytes, resolve, Answer, DNSResponse};

/// The record data of a record line: what stands from the first double quote on.
fn rdata_of(line: &str) -> String {
    let start = line.find('"').unwrap();
    line[start..].to_string()
}

/// The answers of a resolver that holds the records of `zone`.
fn answers_of(zone: &str) -> Vec<Answer> {
    if zone.is_empty() {
        return Vec::new();
    }
    zone.split('\n').map(|line| Answer { data: rdata_of(line) }).collect()
}

fn sample(len: usize) -> Vec<u8> {
    let mut state: u32 = 12345;
    let mut bytes = Vec::new();
    for _ in 0..len {
        state = state.wrapping_mul(1103515245).wrapping_add(12345);
        bytes.push((state >> 16) as u8);
    }
    bytes
}

#[test]
fn hello_world_round_trip() {
    let zone = bytes_to_dns(b"hello world", "example.com", 1, 150).unwrap();
    let lines: Vec<&str> = zone.split('\n').collect();
    assert_eq!(lines.len(), 1);
    assert!(lines[0].starts_with("example.com.\t1\tIN\tTXT\t\"0:"));
    assert!(lines[0].ends_with('"'));
    let response = DNSResponse { answer: vec![Answer { data: rdata_of(lines[0]) }] };
    let text = resolve(&response);
    assert_eq!(base64_to_bytes(&text).unwrap(), b"hello world".to_vec());
    assert_eq!(dns_to_bytes(&response).unwrap(), b"hello world".to_vec());
}

#[test]
fn empty_payload_round_trip() {
    let zone = bytes_to_dns(b"", "example.com", 1, 150).unwrap();
    let response = DNSResponse { answer: answers_of(&zone) };
    assert_eq!(response.answer.len(), 1);
    assert_eq!(dns_to_bytes(&response).unwrap(), Vec::<u8>::new());
}

#[test]
fn round_trip_in_emission_order() {
    let input = sample(2000);
    for size in [1usize, 2, 3, 4, 5, 7, 64, 150, 255, 100000] {
        let zone = bytes_to_dns(&input, "example.com", 1, size).unwrap();
        let response = DNSResponse { answer: answers_of(&zone) };
        assert_eq!(dns_to_bytes(&response).unwrap(), input);
    }
}

#[test]
fn round_trip_with_more_than_ten_records() {
    let input = sample(300);
    let zone = bytes_to_dns(&input, "example.com", 1, 8).unwrap();
    let response = DNSResponse { answer: answers_of(&zone) };
    assert!(response.answer.len() > 16);
    assert_eq!(dns_to_bytes(&response).unwrap(), input);
}

#[test]
fn round_trip_in_reverse_order() {
    let input = sample(1000);
    let zone = bytes_to_dns(&input, "example.com", 1, 10).unwrap();
    let mut answers = answers_of(&zone);
    answers.reverse();
    assert_eq!(dns_to_bytes(&DNSResponse { answer: answers }).unwrap(), input);
}

#[test]
fn round_trip_in_shuffled_order_with_noise() {
    let input = sample(1500);
    let zone = bytes_to_dns(&input, "example.com", 1, 13).unwrap();
    let answers = answers_of(&zone);
    let n = answers.len();
    let mut shuffled: Vec<Answer> = Vec::new();
    let mut k = 0;
    for round in 0..7 {
        let mut i = round;
        while i < n {
            shuffled.push(answers[i].clone());
            k += 1;
            if k % 10 == 0 {
                shuffled.push(Answer { data: "garbage".to_string() });
                shuffled.push(Answer { data: "\"v=spf1 include:example.net -all\"".to_string() });
            }
            i += 7;
        }
    }
    assert_eq!(dns_to_bytes(&DNSResponse { answer: shuffled }).unwrap(), input);
}

#[test]
fn decode_with_one_answer_of_noise_succeeds() {
    let zone = bytes_to_dns(b"hello world", "example.com", 1, 150).unwrap();
    let mut answers = answers_of(&zone);
    answers.insert(0, Answer { data: "garbage".to_string() });
    assert_eq!(dns_to_bytes(&DNSResponse { answer: answers }).unwrap(), b"hello world".to_vec());
}

#[test]
fn decode_without_a_middle_record_does_not_give_the_payload() {
    let input = sample(600);
    let zone = bytes_to_dns(&input, "example.com", 1, 20).unwrap();
    let mut answers = answers_of(&zone);
    assert!(answers.len() > 3);
    answers.remove(1);
    let complete = resolve(&DNSResponse { answer: answers_of(&zone) });
    let lossy = resolve(&DNSResponse { answer: answers.clone() });
    // The gap goes unnoticed when the text is put together.
    assert_eq!(lossy.len(), complete.len() - 20);
    // What comes out is an error or other bytes, never the payload.
    assert_ne!(dns_to_bytes(&DNSResponse { answer: answers }), Ok(input));
}

#[test]
fn every_record_line_has_the_same_owner_and_fields() {
    let zone = bytes_to_dns(&sample(400), "data.example.org", 3600, 30).unwrap();
    for (i, line) in zone.split('\n').enumerate() {
        let fields: Vec<&str> = line.split('\t').collect();
        assert_eq!(fields.len(), 5);
        assert_eq!(fields[0], "data.example.org.");
        assert_eq!(fields[1], "3600");
        assert_eq!(fields[2], "IN");
        assert_eq!(fields[3], "TXT");
        assert!(fields[4].starts_with(&format!("\"{}:", i)));
        assert!(fields[4].ends_with('"'));
    }
}
