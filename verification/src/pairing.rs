//! The pairing-code generator: a shared secret in two interchangeable forms
//! (a 4-word passphrase and its hex-encoded `uuid` form) and the
//! deterministic hash that turns either form into the room identifier both
//! devices derive independently.

use vstd::prelude::*;
use vstd::utf8::{encode_utf8, is_ascii_chars, is_ascii_chars_encode_utf8};
use crate::hex::{hex_chars, hex_string, hex_ascii_bytes, lemma_hex_chars_class};
use rand::RngCore;
use sha2::Digest;

verus! {

// ---------------------------------------------------------------------------
// Normalization of a pairing-code string, at the level of its UTF-8 bytes.
// All transformations touch only ASCII bytes, which is sound on UTF-8 input
// because continuation bytes are at least 0x80.
// ---------------------------------------------------------------------------
/// ASCII lowercasing of one byte.
pub open spec fn lower_byte(b: u8) -> u8 {
    if 65 <= b && b <= 90 {
        (b + 32) as u8
    } else {
        b
    }
}

/// ASCII lowercasing of a byte sequence.
pub open spec fn lower_bytes(s: Seq<u8>) -> Seq<u8> {
    s.map_values(|b: u8| lower_byte(b))
}

/// ASCII whitespace: space, tab, line feed, carriage return.
pub open spec fn is_space_byte(b: u8) -> bool {
    b == 32 || b == 9 || b == 10 || b == 13
}

/// Drops leading ASCII whitespace.
pub open spec fn trim_front(s: Seq<u8>) -> Seq<u8>
    decreases s.len(),
{
    if s.len() > 0 && is_space_byte(s[0]) {
        trim_front(s.drop_first())
    } else {
        s
    }
}

/// Drops trailing ASCII whitespace.
pub open spec fn trim_back(s: Seq<u8>) -> Seq<u8>
    decreases s.len(),
{
    if s.len() > 0 && is_space_byte(s.last()) {
        trim_back(s.drop_last())
    } else {
        s
    }
}

/// Drops leading and trailing ASCII whitespace.
pub open spec fn trim_bytes(s: Seq<u8>) -> Seq<u8> {
    trim_back(trim_front(s))
}

/// Replaces every space by a hyphen.
pub open spec fn space_to_hyphen(s: Seq<u8>) -> Seq<u8> {
    s.map_values(|b: u8| if b == 32 { 45u8 } else { b })
}

/// The normalized form of a pairing-code string: lowercase, trimmed,
/// interior spaces turned into hyphens.
pub open spec fn normalize_bytes(s: Seq<u8>) -> Seq<u8> {
    space_to_hyphen(trim_bytes(lower_bytes(s)))
}

/// The number of hyphen bytes in a sequence.
pub open spec fn hyphen_count(s: Seq<u8>) -> int
    decreases s.len(),
{
    if s.len() == 0 {
        0
    } else {
        (if s[0] == 45 {
            1int
        } else {
            0int
        }) + hyphen_count(s.drop_first())
    }
}

/// A normalized input is taken for a passphrase exactly when it splits into
/// four hyphen-delimited tokens, that is, holds exactly three hyphens.
pub open spec fn passphrase_form(s: Seq<u8>) -> bool {
    hyphen_count(s) == 3
}

/// A character sequence read byte-for-byte as ASCII.
pub open spec fn ascii_of_chars(chars: Seq<char>) -> Seq<u8> {
    chars.map_values(|c: char| c as u8)
}

/// What the 256-bit digest of a byte sequence is. The digest is computed by
/// an outside implementation; nothing but its length and its determinism is
/// assumed of it.
pub uninterp spec fn sha256_of(bytes: Seq<u8>) -> Seq<u8>;

/// The bytes that are hashed for a given normalized input: a passphrase form
/// is first hex-encoded, which reproduces the `uuid` form; anything else is
/// taken to be the `uuid` form already.
pub open spec fn digest_input(norm: Seq<u8>) -> Seq<u8> {
    if passphrase_form(norm) {
        ascii_of_chars(hex_chars(norm))
    } else {
        norm
    }
}

/// The room identifier derived from a pairing-code string: the lowercase
/// hex encoding of the 256-bit digest of the normalized input's bytes.
pub open spec fn spec_room_id(input: Seq<char>) -> Seq<char> {
    hex_chars(sha256_of(digest_input(normalize_bytes(encode_utf8(input)))))
}

// ---------------------------------------------------------------------------
// Trusted items
// ---------------------------------------------------------------------------
/// Relies on sha2::Sha256: a 256-bit (32-byte) digest that is a function of
/// the input bytes alone.
#[verifier::external_body]
fn sha256(bytes: &Vec<u8>) -> (r: Vec<u8>)
    ensures
        r@ == sha256_of(bytes@),
        r@.len() == 32,
{
    sha2::Sha256::digest(bytes.as_slice()).to_vec()
}

/// Relies on rand::rngs::OsRng, the operating system's cryptographically
/// secure generator: fills a buffer with 16 random bytes, or reports failure
/// without falling back to a weaker source. Nothing is assumed of the values.
#[verifier::external_body]
fn entropy_16() -> (r: Option<Vec<u8>>)
    ensures
        r matches Some(v) ==> v@.len() == 16,
{
    let mut buf = [0u8; 16];
    match rand::rngs::OsRng.try_fill_bytes(&mut buf) {
        Ok(()) => Some(buf.to_vec()),
        Err(_) => None,
    }
}

/// A well-formed dictionary word: nonempty, lowercase ASCII letters only.
pub open spec fn word_wf(w: Seq<char>) -> bool {
    w.len() > 0 && forall|j: int|
        #![trigger w[j]]
        0 <= j < w.len() ==> 'a' <= w[j] && w[j] <= 'z'
}

/// The standard mnemonic word sequence derived from an entropy value. The
/// derivation is computed by an outside implementation; it is a function of
/// the entropy alone.
pub uninterp spec fn mnemonic_of(entropy: Seq<u8>) -> Seq<Seq<char>>;

/// Relies on bip39::Mnemonic::from_entropy with its English word list: the
/// mnemonic is a function of the entropy alone; 16 bytes of entropy yield a
/// standard 12-word mnemonic, and every word of that list is a nonempty
/// string of lowercase ASCII letters.
#[verifier::external_body]
fn mnemonic_words(entropy: &Vec<u8>) -> (r: Vec<String>)
    requires
        entropy@.len() == 16,
    ensures
        r.deep_view() == mnemonic_of(entropy@),
        r@.len() == 12,
        forall|i: int| 0 <= i < r@.len() ==> word_wf(#[trigger] r@[i]@),
{
    let mnemonic = bip39::Mnemonic::from_entropy(entropy.as_slice()).expect(
        "16 bytes is a valid entropy length",
    );
    mnemonic.words().map(|w| w.to_string()).collect()
}

// ---------------------------------------------------------------------------
// The pairing code
// ---------------------------------------------------------------------------
/// Words joined by single hyphens.
pub open spec fn join_hyphen(words: Seq<Seq<char>>) -> Seq<char>
    decreases words.len(),
{
    if words.len() == 0 {
        Seq::empty()
    } else if words.len() == 1 {
        words[0]
    } else {
        words[0] + seq!['-'] + join_hyphen(words.drop_first())
    }
}

/// The shared secret in its two interchangeable forms.
///
/// `passphrase` is an ordered sequence of exactly 4 dictionary words;
/// `uuid` is the lowercase hex encoding of the UTF-8 bytes of the
/// hyphen-joined passphrase. Both normalize to the same room identifier.
#[derive(Debug, Clone, PartialEq, Eq)]
pub struct PairingCode {
    pub uuid: String,
    pub passphrase: Vec<String>,
}

/// Well-formedness of a pairing code: four well-formed words, and the `uuid`
/// form is the hex encoding of the hyphen-joined passphrase's bytes.
pub open spec fn pairing_code_wf(code: PairingCode) -> bool {
    &&& code.passphrase@.len() == 4
    &&& forall|i: int| 0 <= i < 4 ==> word_wf(#[trigger] code.passphrase@[i]@)
    &&& code.uuid@ == hex_chars(encode_utf8(join_hyphen(code.passphrase.deep_view())))
}

/// Failure to obtain entropy: fatal for the operation, never silently
/// degraded to a weaker source.
#[derive(Debug, Clone, Copy, PartialEq, Eq)]
pub enum PairingError {
    EntropyUnavailable,
}

// ---------------------------------------------------------------------------
// Executable normalization and hashing
// ---------------------------------------------------------------------------
/// Proves that trimming the front equals dropping the leading whitespace run.
proof fn lemma_trim_front_index(s: Seq<u8>, k: int)
    requires
        0 <= k <= s.len(),
        forall|j: int| 0 <= j < k ==> is_space_byte(#[trigger] s[j]),
        k == s.len() || !is_space_byte(s[k]),
    ensures
        trim_front(s) == s.subrange(k, s.len() as int),
    decreases k,
{
    if k == 0 {
        if s.len() == 0 || !is_space_byte(s[0]) {
            assert(s.subrange(0, s.len() as int) =~= s);
        }
    } else {
        lemma_trim_front_index(s.drop_first(), k - 1);
        assert(s.drop_first().subrange(k - 1, s.drop_first().len() as int) =~= s.subrange(
            k,
            s.len() as int,
        ));
    }
}

/// Proves that trimming the back equals taking up to the trailing
/// whitespace run.
proof fn lemma_trim_back_index(s: Seq<u8>, k: int)
    requires
        0 <= k <= s.len(),
        forall|j: int| k <= j < s.len() ==> is_space_byte(#[trigger] s[j]),
        k == 0 || !is_space_byte(s[k - 1]),
    ensures
        trim_back(s) == s.take(k),
    decreases s.len() - k,
{
    if k == s.len() {
        if s.len() == 0 || !is_space_byte(s.last()) {
            assert(s.take(k) =~= s);
        }
    } else {
        lemma_trim_back_index(s.drop_last(), k);
        assert(s.drop_last().take(k) =~= s.take(k));
    }
}

/// Whether `b` is an ASCII whitespace byte.
fn is_space(b: u8) -> (r: bool)
    ensures
        r == is_space_byte(b),
{
    b == 32 || b == 9 || b == 10 || b == 13
}

/// The normalized form of the given bytes.
fn normalize(input: &Vec<u8>) -> (r: Vec<u8>)
    ensures
        r@ == normalize_bytes(input@),
{
    // Lowercase.
    let mut lowered: Vec<u8> = Vec::new();
    let mut i: usize = 0;
    while i < input.len()
        invariant
            i <= input@.len(),
            lowered@.len() == i,
            forall|j: int| 0 <= j < i ==> lowered@[j] == lower_byte(#[trigger] input@[j]),
        decreases input@.len() - i,
    {
        let b = input[i];
        lowered.push(if 65 <= b && b <= 90 {
            b + 32
        } else {
            b
        });
        i = i + 1;
    }
    proof {
        assert(lowered@ =~= lower_bytes(input@));
    }
    // Trim.
    let mut start: usize = 0;
    while start < lowered.len() && is_space(lowered[start])
        invariant
            start <= lowered@.len(),
            forall|j: int| 0 <= j < start ==> is_space_byte(#[trigger] lowered@[j]),
        decreases lowered@.len() - start,
    {
        start = start + 1;
    }
    let mut end: usize = lowered.len();
    while end > start && is_space(lowered[end - 1])
        invariant
            start <= end <= lowered@.len(),
            forall|j: int| end <= j < lowered@.len() ==> is_space_byte(#[trigger] lowered@[j]),
        decreases end,
    {
        end = end - 1;
    }
    proof {
        lemma_trim_front_index(lowered@, start as int);
        if end == start {
            lemma_trim_back_index(
                lowered@.subrange(start as int, lowered@.len() as int),
                0,
            );
        } else {
            lemma_trim_back_index(
                lowered@.subrange(start as int, lowered@.len() as int),
                end - start,
            );
        }
        assert(trim_bytes(lower_bytes(input@)) =~= lowered@.subrange(start as int, end as int));
    }
    // Replace spaces by hyphens.
    let mut out: Vec<u8> = Vec::new();
    let mut k: usize = start;
    while k < end
        invariant
            start <= k <= end <= lowered@.len(),
            out@.len() == k - start,
            forall|j: int|
                0 <= j < out@.len() ==> out@[j] == (if lowered@[start + j] == 32 {
                    45u8
                } else {
                    lowered@[start + j]
                }),
        decreases end - k,
    {
        let b = lowered[k];
        out.push(if b == 32 {
            45
        } else {
            b
        });
        k = k + 1;
    }
    proof {
        assert(out@ =~= space_to_hyphen(lowered@.subrange(start as int, end as int)));
    }
    out
}

/// Hyphen counting distributes over concatenation.
proof fn lemma_hyphen_count_concat(a: Seq<u8>, b: Seq<u8>)
    ensures
        hyphen_count(a + b) == hyphen_count(a) + hyphen_count(b),
    decreases a.len(),
{
    if a.len() == 0 {
        assert(a + b =~= b);
    } else {
        lemma_hyphen_count_concat(a.drop_first(), b);
        assert((a + b).drop_first() =~= a.drop_first() + b);
    }
}

/// A sequence without hyphen bytes has hyphen count zero.
proof fn lemma_hyphen_count_none(s: Seq<u8>)
    requires
        forall|j: int| 0 <= j < s.len() ==> #[trigger] s[j] != 45,
    ensures
        hyphen_count(s) == 0,
    decreases s.len(),
{
    if s.len() > 0 {
        lemma_hyphen_count_none(s.drop_first());
    }
}

/// The number of hyphens in `v`.
fn count_hyphens(v: &Vec<u8>) -> (r: usize)
    ensures
        r as int == hyphen_count(v@),
{
    let mut count: usize = 0;
    let mut i: usize = 0;
    proof {
        assert(v@.take(0int) =~= Seq::<u8>::empty());
    }
    while i < v.len()
        invariant
            i <= v@.len(),
            count <= i,
            count as int == hyphen_count(v@.take(i as int)),
        decreases v@.len() - i,
    {
        proof {
            assert(v@.take(i + 1) =~= v@.take(i as int) + seq![v@[i as int]]);
            lemma_hyphen_count_concat(v@.take(i as int), seq![v@[i as int]]);
            assert(seq![v@[i as int]].drop_first() =~= Seq::<u8>::empty());
            assert(hyphen_count(Seq::<u8>::empty()) == 0);
            assert(hyphen_count(seq![v@[i as int]]) == (if v@[i as int] == 45 {
                1int
            } else {
                0int
            }));
        }
        if v[i] == 45 {
            count = count + 1;
        }
        i = i + 1;
    }
    proof {
        assert(v@.take(v@.len() as int) =~= v@);
    }
    count
}

/// Derives the room identifier from a pairing-code string.
///
/// The input is normalized (lowercased, trimmed, spaces turned to hyphens);
/// a normalized input with exactly three hyphens is read as a 4-word
/// passphrase and hex-encoded first, reproducing the `uuid` form; the room
/// identifier is the lowercase hex encoding of the 256-bit digest of the
/// resulting bytes, hence 64 hex characters.
pub fn hash(input: &str) -> (room_id: String)
    ensures
        room_id@ == spec_room_id(input@),
        room_id@.len() == 64,
{
    let bytes = input.as_bytes_vec();
    let norm = normalize(&bytes);
    let digest_bytes: Vec<u8> = if count_hyphens(&norm) == 3 {
        hex_ascii_bytes(&norm)
    } else {
        norm
    };
    let digest = sha256(&digest_bytes);
    let room_id = hex_string(&digest);
    proof {
        lemma_hex_chars_class(digest@);
    }
    room_id
}

/// An ASCII character sequence encodes byte-for-byte.
proof fn lemma_ascii_encode(chars: Seq<char>)
    requires
        is_ascii_chars(chars),
    ensures
        encode_utf8(chars) == ascii_of_chars(chars),
{
    is_ascii_chars_encode_utf8(chars);
    assert(encode_utf8(chars) =~= ascii_of_chars(chars));
}

/// Every character of a hyphen-joined sequence of well-formed words is a
/// hyphen or a lowercase ASCII letter.
proof fn lemma_join_class(words: Seq<Seq<char>>)
    requires
        forall|i: int| 0 <= i < words.len() ==> word_wf(#[trigger] words[i]),
    ensures
        forall|j: int|
            #![trigger join_hyphen(words)[j]]
            0 <= j < join_hyphen(words).len() ==> (join_hyphen(words)[j] == '-' || ('a'
                <= join_hyphen(words)[j] && join_hyphen(words)[j] <= 'z')),
    decreases words.len(),
{
    if words.len() <= 1 {
    } else {
        lemma_join_class(words.drop_first());
        assert(forall|i: int|
            0 <= i < words.drop_first().len() ==> word_wf(#[trigger] words.drop_first()[i]));
        let w0 = words[0];
        let tail = join_hyphen(words.drop_first());
        let whole = join_hyphen(words);
        assert(whole == w0 + seq!['-'] + tail);
        assert forall|j: int| 0 <= j < whole.len() implies (#[trigger] whole[j] == '-' || ('a'
            <= whole[j] && whole[j] <= 'z')) by {
            if j < w0.len() {
                assert(whole[j] == w0[j]);
            } else if j == w0.len() {
                assert(whole[j] == '-');
            } else {
                assert(whole[j] == tail[j - w0.len() - 1]);
            }
        }
    }
}

/// A hyphen-joined sequence of well-formed words holds exactly one hyphen
/// fewer than it has words.
proof fn lemma_join_hyphen_count(words: Seq<Seq<char>>)
    requires
        words.len() >= 1,
        forall|i: int| 0 <= i < words.len() ==> word_wf(#[trigger] words[i]),
    ensures
        hyphen_count(ascii_of_chars(join_hyphen(words))) == words.len() - 1,
    decreases words.len(),
{
    let head = ascii_of_chars(words[0]);
    assert forall|j: int| 0 <= j < head.len() implies #[trigger] head[j] != 45 by {
        assert('a' <= words[0][j] && words[0][j] <= 'z');
        assert(head[j] == words[0][j] as u8);
    }
    if words.len() == 1 {
        lemma_hyphen_count_none(head);
    } else {
        lemma_join_hyphen_count(words.drop_first());
        assert(forall|i: int|
            0 <= i < words.drop_first().len() ==> word_wf(#[trigger] words.drop_first()[i]));
        let hy = ascii_of_chars(seq!['-']);
        let rest = ascii_of_chars(join_hyphen(words.drop_first()));
        assert(ascii_of_chars(join_hyphen(words)) =~= head + hy + rest);
        lemma_hyphen_count_concat(head + hy, rest);
        lemma_hyphen_count_concat(head, hy);
        lemma_hyphen_count_none(head);
        assert(hy =~= seq![45u8]);
        assert(seq![45u8].drop_first() =~= Seq::<u8>::empty());
        assert(hyphen_count(Seq::<u8>::empty()) == 0);
        assert(hyphen_count(seq![45u8]) == 1);
    }
}

/// Normalization leaves a sequence without uppercase letters and without
/// whitespace unchanged.
proof fn lemma_normalize_identity(s: Seq<u8>)
    requires
        forall|j: int| 0 <= j < s.len() ==> !(65 <= #[trigger] s[j] <= 90),
        forall|j: int| 0 <= j < s.len() ==> !is_space_byte(#[trigger] s[j]),
    ensures
        normalize_bytes(s) == s,
{
    assert(lower_bytes(s) =~= s);
    assert(trim_front(s) == s);
    assert(trim_back(s) == s);
    assert(space_to_hyphen(s) =~= s);
}

/// The discovery law behind the pairing code: for any four well-formed
/// dictionary words, the hex-encoded `uuid` form and the hyphen-joined
/// passphrase form hash to the same room identifier, so two devices that
/// obtain the same secret in either form derive the same room with no
/// further exchange.
pub proof fn lemma_pairing_equivalence(words: Seq<Seq<char>>)
    requires
        words.len() == 4,
        forall|i: int| 0 <= i < words.len() ==> word_wf(#[trigger] words[i]),
    ensures
        spec_room_id(hex_chars(encode_utf8(join_hyphen(words)))) == spec_room_id(
            join_hyphen(words),
        ),
{
    let j = join_hyphen(words);
    lemma_join_class(words);
    assert forall|i: int| 0 <= i < j.len() implies '\0' <= #[trigger] j[i] <= '\u{7f}' by {
        assert(j[i] == '-' || ('a' <= j[i] && j[i] <= 'z'));
    }
    assert(is_ascii_chars(j));
    lemma_ascii_encode(j);
    let jb = encode_utf8(j);
    assert forall|i: int| 0 <= i < jb.len() implies (#[trigger] jb[i] == 45 || 97 <= jb[i]
        <= 122) by {
        assert(jb[i] == j[i] as u8);
        assert(j[i] == '-' || ('a' <= j[i] && j[i] <= 'z'));
    }
    // Passphrase side: the joined form is already normalized and splits into
    // exactly four tokens, so its bytes are hex-encoded before digesting.
    lemma_normalize_identity(jb);
    lemma_join_hyphen_count(words);
    assert(ascii_of_chars(j) =~= jb);
    assert(passphrase_form(jb));
    assert(spec_room_id(j) == hex_chars(sha256_of(ascii_of_chars(hex_chars(jb)))));
    // Uuid side: a hex string is already normalized and holds no hyphen, so
    // its bytes are digested as they stand.
    let u = hex_chars(jb);
    lemma_hex_chars_class(jb);
    assert forall|i: int| 0 <= i < u.len() implies '\0' <= #[trigger] u[i] <= '\u{7f}' by {
        assert(('0' <= u[i] && u[i] <= '9') || ('a' <= u[i] && u[i] <= 'f'));
    }
    assert(is_ascii_chars(u));
    lemma_ascii_encode(u);
    let ub = ascii_of_chars(u);
    assert forall|i: int| 0 <= i < ub.len() implies (48 <= #[trigger] ub[i] <= 57 || 97 <= ub[i]
        <= 102) by {
        assert(ub[i] == u[i] as u8);
        assert(('0' <= u[i] && u[i] <= '9') || ('a' <= u[i] && u[i] <= 'f'));
    }
    lemma_normalize_identity(ub);
    lemma_hyphen_count_none(ub);
    assert(!passphrase_form(ub));
    assert(spec_room_id(u) == hex_chars(sha256_of(ub)));
}

/// Unfolds the hyphen-joining of exactly four words.
proof fn lemma_join_four(ws: Seq<Seq<char>>)
    requires
        ws.len() == 4,
    ensures
        join_hyphen(ws) == ws[0] + seq!['-'] + ws[1] + seq!['-'] + ws[2] + seq!['-'] + ws[3],
{
    let t1 = ws.drop_first();
    let t2 = t1.drop_first();
    let t3 = t2.drop_first();
    assert(t1.len() == 3 && t2.len() == 2 && t3.len() == 1);
    assert(t3[0] == ws[3] && t2[0] == ws[2] && t1[0] == ws[1]);
    assert(join_hyphen(t3) == ws[3]);
    assert(join_hyphen(t2) == t2[0] + seq!['-'] + join_hyphen(t3));
    assert(join_hyphen(t1) == t1[0] + seq!['-'] + join_hyphen(t2));
    assert(join_hyphen(ws) == ws[0] + seq!['-'] + join_hyphen(t1));
    assert(ws[0] + seq!['-'] + (t1[0] + seq!['-'] + (t2[0] + seq!['-'] + t3[0])) =~= ws[0]
        + seq!['-'] + ws[1] + seq!['-'] + ws[2] + seq!['-'] + ws[3]);
}

/// Builds the pairing code over a 12-word mnemonic: the first 4 words,
/// kept verbatim and in order, become the passphrase, and the `uuid` form
/// is the hex encoding of the UTF-8 bytes of the hyphen-joined passphrase.
/// Both forms hash to the same room identifier.
#[verifier::rlimit(100)]
pub fn code_from_words(words: &Vec<String>) -> (r: PairingCode)
    requires
        words@.len() == 12,
        forall|i: int| 0 <= i < words@.len() ==> word_wf(#[trigger] words@[i]@),
    ensures
        pairing_code_wf(r),
        r.passphrase@.len() == 4,
        forall|i: int| #![trigger r.passphrase@[i]] 0 <= i < 4 ==> r.passphrase@[i]@ == words@[i]@,
        spec_room_id(r.uuid@) == spec_room_id(join_hyphen(r.passphrase.deep_view())),
{
    let mut passphrase: Vec<String> = Vec::new();
    passphrase.push(words[0].clone());
    passphrase.push(words[1].clone());
    passphrase.push(words[2].clone());
    passphrase.push(words[3].clone());
    let mut joined = words[0].clone();
    joined.append("-");
    joined.append(words[1].as_str());
    joined.append("-");
    joined.append(words[2].as_str());
    joined.append("-");
    joined.append(words[3].as_str());
    let joined_bytes = joined.as_str().as_bytes_vec();
    let uuid = hex_string(&joined_bytes);
    proof {
        let ws = passphrase.deep_view();
        assert(ws.len() == 4);
        assert(ws[0] == words@[0]@ && ws[1] == words@[1]@ && ws[2] == words@[2]@ && ws[3]
            == words@[3]@);
        lemma_join_four(ws);
        assert(joined@ == join_hyphen(ws)) by {
            reveal_strlit("-");
            assert(("-")@ =~= seq!['-']);
            assert(joined@ =~= ws[0] + seq!['-'] + ws[1] + seq!['-'] + ws[2] + seq!['-'] + ws[3]);
        }
        assert(forall|i: int| 0 <= i < ws.len() ==> word_wf(#[trigger] ws[i]));
        lemma_pairing_equivalence(ws);
    }
    PairingCode { uuid, passphrase }
}

/// Generates a fresh pairing code: 16 bytes of entropy from the system's
/// CSPRNG, the first 4 words of the standard 12-word mnemonic derived from
/// them as the passphrase, and the hex encoding of the hyphen-joined
/// passphrase's bytes as the `uuid` form. Both forms hash to the same room
/// identifier. Fails only when no entropy could be obtained.
pub fn generate() -> (r: Result<PairingCode, PairingError>)
    ensures
        r matches Ok(code) ==> pairing_code_wf(code),
        r matches Ok(code) ==> (exists|e: Seq<u8>|
            e.len() == 16 && code.passphrase.deep_view() == #[trigger] mnemonic_of(e).take(4)),
        r matches Ok(code) ==> spec_room_id(code.uuid@) == spec_room_id(
            join_hyphen(code.passphrase.deep_view()),
        ),
        r matches Err(e) ==> e == PairingError::EntropyUnavailable,
{
    let entropy = match entropy_16() {
        Some(e) => e,
        None => {
            return Err(PairingError::EntropyUnavailable);
        },
    };
    let ghost entropy_view = entropy@;
    let words = mnemonic_words(&entropy);
    let code = code_from_words(&words);
    proof {
        assert(code.passphrase.deep_view() =~= mnemonic_of(entropy_view).take(4));
        assert(exists|e: Seq<u8>|
            e.len() == 16 && code.passphrase.deep_view() == #[trigger] mnemonic_of(e).take(4));
    }
    Ok(code)
}

/// Hashing is deterministic: the room identifier is a function of the input
/// string alone, so two calls on equal inputs agree.
pub proof fn lemma_hash_deterministic(a: Seq<char>, b: Seq<char>)
    requires
        a == b,
    ensures
        spec_room_id(a) == spec_room_id(b),
{
}

} // verus!
