use sha2::{Digest, Sha256};
use signaling::pairing::{code_from_words, generate, hash};

fn manual_hex(bytes: &[u8]) -> String {
    let mut out = String::new();
    for b in bytes {
        out.push_str(&format!("{:02x}", b));
    }
    out
}

#[test]
fn generated_forms_hash_to_the_same_room() {
    let code = generate().expect("entropy should be available");
    assert_eq!(code.passphrase.len(), 4);
    let joined = code.passphrase.join("-");
    assert_eq!(hash(&code.uuid), hash(&joined));
}

#[test]
fn generated_uuid_is_hex_of_joined_passphrase() {
    let code = generate().expect("entropy should be available");
    let joined = code.passphrase.join("-");
    assert_eq!(code.uuid, manual_hex(joined.as_bytes()));
}

#[test]
fn generated_words_are_lowercase_dictionary_words() {
    let code = generate().expect("entropy should be available");
    for word in &code.passphrase {
        assert!(!word.is_empty());
        assert!(word.chars().all(|c| c.is_ascii_lowercase()));
    }
}

#[test]
fn hash_is_deterministic() {
    let a = hash("alpha bravo charlie delta");
    let b = hash("alpha bravo charlie delta");
    assert_eq!(a, b);
}

#[test]
fn hash_normalizes_case_spaces_and_edges() {
    assert_eq!(
        hash("  Alpha Bravo Charlie Delta "),
        hash("alpha-bravo-charlie-delta")
    );
}

#[test]
fn hash_of_passphrase_matches_manual_digest() {
    // A normalized input with exactly four hyphen-delimited tokens is
    // hex-encoded first, reproducing the uuid form, then digested.
    let normalized = "alpha-bravo-charlie-delta";
    let uuid_form = manual_hex(normalized.as_bytes());
    let expected = manual_hex(&Sha256::digest(uuid_form.as_bytes()));
    assert_eq!(hash(normalized), expected);
}

#[test]
fn hash_of_uuid_form_matches_manual_digest() {
    let uuid_form = manual_hex("alpha-bravo-charlie-delta".as_bytes());
    let expected = manual_hex(&Sha256::digest(uuid_form.as_bytes()));
    assert_eq!(hash(&uuid_form), expected);
}

#[test]
fn non_passphrase_input_is_digested_directly() {
    let input = "only-three-tokens";
    let expected = manual_hex(&Sha256::digest(input.as_bytes()));
    assert_eq!(hash(input), expected);
}

#[test]
fn room_id_is_64_lowercase_hex_chars() {
    let r = hash("anything at all");
    assert_eq!(r.len(), 64);
    assert!(r
        .chars()
        .all(|c| c.is_ascii_digit() || ('a'..='f').contains(&c)));
}

#[test]
fn two_generated_codes_differ() {
    let a = generate().expect("entropy should be available");
    let b = generate().expect("entropy should be available");
    assert_ne!(a.uuid, b.uuid);
}

#[test]
fn code_from_words_keeps_the_first_four_words() {
    let words: Vec<String> = [
        "alpha", "bravo", "charlie", "delta", "echo", "foxtrot", "golf", "hotel", "india",
        "juliett", "kilo", "lima",
    ]
    .iter()
    .map(|w| w.to_string())
    .collect();
    let code = code_from_words(&words);
    assert_eq!(code.passphrase, vec!["alpha", "bravo", "charlie", "delta"]);
    assert_eq!(code.uuid, manual_hex("alpha-bravo-charlie-delta".as_bytes()));
    assert_eq!(hash(&code.uuid), hash("alpha-bravo-charlie-delta"));
}

#[test]
fn generated_passphrase_is_a_mnemonic_prefix() {
    // The same derivation on the same entropy gives the same words, so a
    // generated passphrase always consists of dictionary words; two fresh
    // codes almost surely differ in at least one word.
    let a = generate().expect("entropy should be available");
    let b = generate().expect("entropy should be available");
    assert_eq!(a.passphrase.len(), 4);
    assert_eq!(b.passphrase.len(), 4);
    assert_ne!(a.passphrase.join("-"), b.passphrase.join("-"));
}
