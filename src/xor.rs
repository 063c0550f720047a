use vstd::prelude::*;
use vstd::utf8::{decode_utf8, encode_utf8, valid_utf8, decode_utf8_encode_utf8};
use crate::cbc::{repeating_xor, xor};
use crate::error::CryptoError;
use crate::buffer::{chunk_by_size, column};

verus! {

/// What `str::to_lowercase` makes of a sequence of characters.
pub uninterp spec fn lowercase_of(s: Seq<char>) -> Seq<char>;

/// Whether `char::is_uppercase` holds of a character.
pub uninterp spec fn is_uppercase_of(c: char) -> bool;

/// Relies on `str::to_lowercase`: the lower-case form of a string, which
/// depends on its characters alone.
#[verifier::external_body]
fn lowercase(s: &str) -> (r: String)
    ensures
        r@ == lowercase_of(s@),
{
    s.to_lowercase()
}

/// Relies on `char::is_uppercase`: whether a character has the Unicode
/// `Uppercase` property.
#[verifier::external_body]
fn is_uppercase(c: char) -> (r: bool)
    ensures
        r == is_uppercase_of(c),
{
    c.is_uppercase()
}

/// The characters of `s`, in order.
fn chars_of(s: &str) -> (r: Vec<char>)
    ensures
        r@ == s@,
{
    let mut out: Vec<char> = Vec::new();
    for c in it: s.chars()
        invariant
            out@ == it.seq().take(it.index() as int),
    {
        out.push(c);
    }
    out
}

/// Number of histogram buckets: the 26 lower-case letters, the space, and
/// one bucket for every other character.
pub const BUCKETS: usize = 28;

/// The bucket a lower-cased character falls in: `0..26` for `'a'..='z'`,
/// 26 for the space and 27 for anything else.
pub open spec fn bucket(c: char) -> nat {
    if 97 <= c as u32 <= 122 {
        (c as u32 - 97) as nat
    } else if c as u32 == 32 {
        26
    } else {
        27
    }
}

/// How many characters of `s` fall in bucket `k`.
pub open spec fn bucket_count(s: Seq<char>, k: nat) -> nat
    decreases s.len(),
{
    if s.len() == 0 {
        0
    } else {
        bucket_count(s.drop_last(), k) + if bucket(s.last()) == k { 1nat } else { 0nat }
    }
}

/// Expected frequency of bucket `k` in English text, in hundredths of a
/// percent. Characters outside the letters and the space are expected never.
pub open spec fn expected_frequency(k: nat) -> nat {
    if k == 0 { 812 }
    else if k == 1 { 149 }
    else if k == 2 { 271 }
    else if k == 3 { 432 }
    else if k == 4 { 1202 }
    else if k == 5 { 230 }
    else if k == 6 { 203 }
    else if k == 7 { 592 }
    else if k == 8 { 731 }
    else if k == 9 { 10 }
    else if k == 10 { 69 }
    else if k == 11 { 398 }
    else if k == 12 { 261 }
    else if k == 13 { 695 }
    else if k == 14 { 768 }
    else if k == 15 { 182 }
    else if k == 16 { 11 }
    else if k == 17 { 602 }
    else if k == 18 { 628 }
    else if k == 19 { 910 }
    else if k == 20 { 288 }
    else if k == 21 { 111 }
    else if k == 22 { 209 }
    else if k == 23 { 17 }
    else if k == 24 { 211 }
    else if k == 25 { 7 }
    else if k == 26 { 1300 }
    else { 0 }
}

/// One bucket's distance between expected and observed frequency, in
/// thousandths, rounded down: `|expected / 10000 - count / len| * 1000`.
/// An empty text contributes nothing.
pub open spec fn bucket_distance(expected: nat, count: nat, len: nat) -> nat {
    if len == 0 {
        0
    } else {
        let e = expected * len;
        let o = 10000 * count;
        let diff: nat = if e >= o { (e - o) as nat } else { (o - e) as nat };
        diff / (10 * len)
    }
}

/// Sum of the distances of the first `n` buckets of the lower-cased text `s`,
/// whose original is `len` bytes long.
pub open spec fn divergence_upto(s: Seq<char>, len: nat, n: nat) -> nat
    decreases n,
{
    if n == 0 {
        0
    } else {
        divergence_upto(s, len, (n - 1) as nat) + bucket_distance(
            expected_frequency((n - 1) as nat),
            bucket_count(s, (n - 1) as nat),
            len,
        )
    }
}

/// The letter-frequency divergence of the lower-cased text `s` over all buckets.
pub open spec fn divergence(s: Seq<char>, len: nat) -> nat {
    divergence_upto(s, len, BUCKETS as nat)
}

/// The score of a text whose lower-cased form is `lowered`, which has
/// `upper` upper-case characters and is `len` bytes long: the divergence,
/// doubled when more than half of the length is upper case, and capped at
/// `u64::MAX`. Lower is more English-like.
pub open spec fn frequency_score_spec(lowered: Seq<char>, upper: nat, len: nat) -> nat {
    let d = divergence(lowered, len) * if upper > len / 2 { 2nat } else { 1nat };
    if d > u64::MAX { u64::MAX as nat } else { d }
}

/// How many characters of `s` are upper case.
pub open spec fn upper_count(s: Seq<char>) -> nat
    decreases s.len(),
{
    if s.len() == 0 {
        0
    } else {
        upper_count(s.drop_last()) + if is_uppercase_of(s.last()) { 1nat } else { 0nat }
    }
}

/// The score of `phrase`: see `frequency_score_spec`.
pub open spec fn score_spec(phrase: &str) -> nat {
    frequency_score_spec(lowercase_of(phrase@), upper_count(phrase@), phrase.len() as nat)
}

/// The bucket of a character, as `bucket` says.
fn bucket_of(c: char) -> (r: usize)
    ensures
        r == bucket(c),
        r < BUCKETS,
{
    let u = c as u32;
    if 97 <= u && u <= 122 {
        (u - 97) as usize
    } else if u == 32 {
        26
    } else {
        27
    }
}

/// The expected frequency of bucket `k`, as `expected_frequency` says.
fn expected_frequency_of(k: usize) -> (r: u64)
    requires
        k < BUCKETS,
    ensures
        r == expected_frequency(k as nat),
        r <= 1300,
{
    match k {
        0 => 812,
        1 => 149,
        2 => 271,
        3 => 432,
        4 => 1202,
        5 => 230,
        6 => 203,
        7 => 592,
        8 => 731,
        9 => 10,
        10 => 69,
        11 => 398,
        12 => 261,
        13 => 695,
        14 => 768,
        15 => 182,
        16 => 11,
        17 => 602,
        18 => 628,
        19 => 910,
        20 => 288,
        21 => 111,
        22 => 209,
        23 => 17,
        24 => 211,
        25 => 7,
        26 => 1300,
        _ => 0,
    }
}

/// The histogram of `s` over the buckets.
fn histogram(s: &Vec<char>) -> (counts: Vec<usize>)
    ensures
        counts@.len() == BUCKETS,
        forall|k: int| 0 <= k < BUCKETS ==> #[trigger] counts@[k] == bucket_count(s@, k as nat),
{
    let mut counts: Vec<usize> = Vec::new();
    for k in 0..BUCKETS
        invariant
            counts@.len() == k,
            forall|j: int| 0 <= j < k ==> #[trigger] counts@[j] == 0,
    {
        counts.push(0);
    }
    for i in 0..s.len()
        invariant
            counts@.len() == BUCKETS,
            forall|k: int| 0 <= k < BUCKETS ==> #[trigger] counts@[k] == bucket_count(s@.take(i as int), k as nat),
            forall|k: int| 0 <= k < BUCKETS ==> #[trigger] counts@[k] <= i,
    {
        let b = bucket_of(s[i]);
        counts.set(b, counts[b] + 1);
        proof {
            let t = s@.take(i + 1);
            assert(t.drop_last() =~= s@.take(i as int));
            assert forall|k: int| 0 <= k < BUCKETS implies #[trigger] counts@[k] == bucket_count(t, k as nat) by {
                assert(bucket_count(t, k as nat) == bucket_count(t.drop_last(), k as nat) + if bucket(t.last()) == k { 1nat } else { 0nat });
            }
        }
    }
    proof {
        assert(s@.take(s@.len() as int) =~= s@);
    }
    counts
}

/// The distance of one bucket, as `bucket_distance` says.
fn bucket_distance_of(expected: u64, count: usize, len: usize) -> (r: u128)
    requires
        expected <= 1300,
    ensures
        r == bucket_distance(expected as nat, count as nat, len as nat),
        r < 0x1_0000_0000_0000_0000_0000,
{
    if len == 0 {
        return 0;
    }
    proof {
        assert(expected as int * len as int <= 1300 * 0x1_0000_0000_0000_0000) by (nonlinear_arith)
            requires expected <= 1300, len < 0x1_0000_0000_0000_0000;
    }
    let e: u128 = expected as u128 * len as u128;
    let o: u128 = 10000 * count as u128;
    let diff: u128 = if e >= o { e - o } else { o - e };
    let denom: u128 = 10 * len as u128;
    let r = diff / denom;
    proof {
        assert(r <= diff) by (nonlinear_arith)
            requires r == diff / denom, denom > 0;
    }
    r
}

/// The score of a text from its lower-cased form `lowered`, the number of its
/// upper-case characters `upper` and its length in bytes `len`: the sum over
/// the buckets of the distance between expected and observed frequency, in
/// thousandths, doubled when `upper` exceeds half of `len`.
pub fn frequency_score(lowered: &str, upper: usize, len: usize) -> (r: u64)
    ensures
        r == frequency_score_spec(lowered@, upper as nat, len as nat),
{
    let chars = chars_of(lowered);
    let counts = histogram(&chars);
    let mut total: u128 = 0;
    for k in 0..BUCKETS
        invariant
            counts@.len() == BUCKETS,
            forall|j: int| 0 <= j < BUCKETS ==> #[trigger] counts@[j] == bucket_count(lowered@, j as nat),
            total == divergence_upto(lowered@, len as nat, k as nat),
            total <= k * 0x1_0000_0000_0000_0000_0000,
    {
        let d = bucket_distance_of(expected_frequency_of(k), counts[k], len);
        total = total + d;
    }
    let multiplier: u128 = if upper > len / 2 { 2 } else { 1 };
    let scaled = total * multiplier;
    if scaled > u64::MAX as u128 {
        u64::MAX
    } else {
        scaled as u64
    }
}

/// How many characters of `s` are upper case.
fn count_uppercase(s: &Vec<char>) -> (r: usize)
    ensures
        r == upper_count(s@),
{
    let mut n: usize = 0;
    for i in 0..s.len()
        invariant
            n == upper_count(s@.take(i as int)),
            n <= i,
    {
        proof {
            assert(s@.take(i + 1).drop_last() =~= s@.take(i as int));
        }
        if is_uppercase(s[i]) {
            n = n + 1;
        }
    }
    proof {
        assert(s@.take(s@.len() as int) =~= s@);
    }
    n
}

/// Scores `phrase` by how far its letter frequencies are from English text:
/// lower is more English-like. Upper-case heavy text is penalised.
pub fn score(phrase: &str) -> (r: u64)
    ensures
        r == score_spec(phrase),
{
    let lowered = lowercase(phrase);
    let upper = count_uppercase(&chars_of(phrase));
    frequency_score(lowered.as_str(), upper, phrase.len())
}

/// Relies on `String::from_utf8`: it accepts exactly the byte sequences that
/// are valid UTF-8, and then holds the characters they encode.
#[verifier::external_body]
fn text_of(b: Vec<u8>) -> (r: Option<String>)
    ensures
        r is Some <==> valid_utf8(b@),
        r is Some ==> r->0@ == decode_utf8(b@),
{
    String::from_utf8(b).ok()
}

/// A UTF-8 encoding has at least one byte per character.
proof fn lemma_encode_utf8_len(s: Seq<char>)
    ensures
        encode_utf8(s).len() >= s.len(),
    decreases s.len(),
{
    if s.len() > 0 {
        lemma_encode_utf8_len(s.drop_first());
    }
}

/// XORs `cipher` with the bytes of `key` repeated; applying it twice with
/// the same key gives `cipher` back.
pub fn decrypt(cipher: &Vec<u8>, key: &str) -> (r: Vec<u8>)
    requires
        key@.len() > 0 || cipher@.len() == 0,
    ensures
        r@ == repeating_xor(cipher@, encode_utf8(key@)),
{
    proof {
        lemma_encode_utf8_len(key@);
    }
    xor(cipher.as_slice(), key.as_bytes())
}

/// XOR with a repeated key undoes itself.
pub proof fn lemma_repeating_xor_involutive(b: Seq<u8>, key: Seq<u8>)
    requires
        key.len() > 0,
    ensures
        repeating_xor(repeating_xor(b, key), key) == b,
{
    let once = repeating_xor(b, key);
    let twice = repeating_xor(once, key);
    assert forall|i: int| 0 <= i < b.len() implies #[trigger] twice[i] == b[i] by {
        let x = b[i];
        let y = key[i % (key.len() as int)];
        assert((x ^ y) ^ y == x) by (bit_vector);
    }
    assert(twice =~= b);
}

/// A candidate single-byte key with the text it decrypts to and that text's
/// score (lower is better).
#[derive(Debug, Clone)]
pub struct Guess {
    pub phrase: String,
    pub score: u64,
    pub key: char,
}

/// The first byte of the printable range that keys are searched in.
pub const FIRST_KEY: u8 = 0x20;

/// The last byte of the printable range that keys are searched in.
pub const LAST_KEY: u8 = 0x7e;

/// The text that `cipher` decrypts to under the single-byte key `k`, or the
/// empty text when the bytes are not valid UTF-8.
pub open spec fn candidate_phrase(cipher: Seq<u8>, k: u8) -> Seq<char> {
    let plain = repeating_xor(cipher, seq![k]);
    if valid_utf8(plain) { decode_utf8(plain) } else { Seq::empty() }
}

/// The score of the single-byte key `k` on `cipher`: the score of the text
/// it decrypts to, or `u64::MAX` when that is not valid UTF-8.
pub open spec fn candidate_score(cipher: Seq<u8>, k: u8) -> nat {
    text_score(repeating_xor(cipher, seq![k]))
}

/// The score of the bytes `plain` read as UTF-8 text, or `u64::MAX` when
/// they are not valid UTF-8.
pub open spec fn text_score(plain: Seq<u8>) -> nat {
    if valid_utf8(plain) {
        frequency_score_spec(
            lowercase_of(decode_utf8(plain)),
            upper_count(decode_utf8(plain)),
            plain.len(),
        )
    } else {
        u64::MAX as nat
    }
}

/// `k` is the key that the single-byte search picks for `cipher`: a printable
/// byte with the lowest candidate score, the first such one on ties.
pub open spec fn is_best_key(cipher: Seq<u8>, k: int) -> bool {
    &&& FIRST_KEY <= k <= LAST_KEY
    &&& forall|c: u8|
        FIRST_KEY <= c <= LAST_KEY ==> #[trigger] candidate_score(cipher, c) >= candidate_score(cipher, k as u8)
    &&& forall|c: u8|
        FIRST_KEY <= c < k ==> #[trigger] candidate_score(cipher, c) > candidate_score(cipher, k as u8)
}

/// Decrypts `cipher` with the single-byte key `k` and scores the result.
fn candidate(cipher: &Vec<u8>, k: u8) -> (g: Guess)
    ensures
        g.key as u32 == k as u32,
        g.score == candidate_score(cipher@, k),
        g.phrase@ == candidate_phrase(cipher@, k),
{
    let key = [k];
    let plain = xor(cipher.as_slice(), &key);
    proof {
        assert(key@ =~= seq![k]);
    }
    let (text, s) = score_bytes(plain);
    Guess { phrase: text, score: s, key: k as char }
}

/// Reads `plain` as UTF-8 text and scores it; bytes that are not valid UTF-8
/// give the empty text and the worst score.
fn score_bytes(plain: Vec<u8>) -> (r: (String, u64))
    ensures
        r.1 == text_score(plain@),
        r.0@ == if valid_utf8(plain@) { decode_utf8(plain@) } else { Seq::empty() },
{
    let ghost bytes = plain@;
    let n = plain.len();
    match text_of(plain) {
        Some(text) => {
            proof {
                decode_utf8_encode_utf8(bytes);
                assert(encode_utf8(text@) == bytes);
            }
            let t = text.as_str();
            proof {
                assert(t@ == text@);
                assert(t.len() == n);
            }
            let s = score(t);
            (text, s)
        },
        None => (String::new(), u64::MAX),
    }
}

/// Decrypts `cipher` under each of `keys` and returns the plaintext whose
/// text scores lowest, the first such one on ties; `None` when there are no
/// keys.
pub fn best_decryption(cipher: &Vec<u8>, keys: &Vec<Vec<u8>>) -> (r: Option<Vec<u8>>)
    requires
        forall|i: int| 0 <= i < keys@.len() ==> (#[trigger] keys@[i])@.len() > 0,
    ensures
        keys@.len() == 0 <==> r is None,
        r is Some ==> exists|i: int|
            0 <= i < keys@.len() && r->Some_0@ == repeating_xor(cipher@, (#[trigger] keys@[i])@)
                && (forall|j: int|
                0 <= j < keys@.len() ==> text_score(repeating_xor(cipher@, (#[trigger] keys@[j])@))
                    >= text_score(r->Some_0@)) && (forall|j: int|
                0 <= j < i ==> text_score(repeating_xor(cipher@, (#[trigger] keys@[j])@)) > text_score(
                    r->Some_0@,
                )),
{
    let mut best: Option<Vec<u8>> = None;
    let mut best_score: u64 = 0;
    let ghost mut best_index: int = 0;
    for i in 0..keys.len()
        invariant
            forall|j: int| 0 <= j < keys@.len() ==> (#[trigger] keys@[j])@.len() > 0,
            i == 0 <==> best is None,
            best is Some ==> 0 <= best_index < i && best->Some_0@ == repeating_xor(cipher@, keys@[best_index]@)
                && best_score == text_score(best->Some_0@),
            best is Some ==> forall|j: int|
                0 <= j < i ==> text_score(repeating_xor(cipher@, (#[trigger] keys@[j])@)) >= best_score,
            best is Some ==> forall|j: int|
                0 <= j < best_index ==> text_score(repeating_xor(cipher@, (#[trigger] keys@[j])@)) > best_score,
    {
        let plain = xor(cipher.as_slice(), keys[i].as_slice());
        let copy = plain.clone();
        let (_, s) = score_bytes(copy);
        if best.is_none() || s < best_score {
            best = Some(plain);
            best_score = s;
            proof {
                best_index = i as int;
            }
        }
    }
    best
}

/// Finds the printable single-byte key under which `phrase` decrypts to the
/// most English-like text. Undecodable candidates score worst; ties go to the
/// smaller key.
pub fn do_single_letter_key_speculation(phrase: Vec<u8>) -> (g: Guess)
    ensures
        is_best_key(phrase@, g.key as u32 as int),
        g.score == candidate_score(phrase@, g.key as u32 as u8),
        g.phrase@ == candidate_phrase(phrase@, g.key as u32 as u8),
{
    let mut best = candidate(&phrase, FIRST_KEY);
    let mut best_key: u8 = FIRST_KEY;
    for c in (FIRST_KEY + 1)..(LAST_KEY + 1)
        invariant
            FIRST_KEY <= best_key < c,
            best.key as u32 == best_key as u32,
            best.score == candidate_score(phrase@, best_key),
            best.phrase@ == candidate_phrase(phrase@, best_key),
            forall|d: u8| FIRST_KEY <= d < c ==> #[trigger] candidate_score(phrase@, d) >= best.score,
            forall|d: u8| FIRST_KEY <= d < best_key ==> #[trigger] candidate_score(phrase@, d) > best.score,
    {
        let g = candidate(&phrase, c);
        if g.score < best.score {
            best = g;
            best_key = c;
        }
    }
    best
}

/// The number of set bits of `x`.
pub open spec fn ones(x: nat) -> nat
    decreases x,
{
    if x == 0 { 0 } else { x % 2 + ones(x / 2) }
}

/// A byte has at most eight set bits.
proof fn lemma_ones_bound(x: nat, n: nat)
    requires
        x < pow2(n),
    ensures
        ones(x) <= n,
    decreases n,
{
    if n > 0 && x > 0 {
        lemma_ones_bound(x / 2, (n - 1) as nat);
    }
}

/// 2 to the power `n`.
pub open spec fn pow2(n: nat) -> nat
    decreases n,
{
    if n == 0 { 1 } else { 2 * pow2((n - 1) as nat) }
}

/// The number of set bits of `x`.
fn count_ones(x: u8) -> (r: u32)
    ensures
        r == ones(x as nat),
        r <= 8,
{
    let mut n: u32 = 0;
    let mut d: u8 = x;
    proof {
        assert(pow2(0) == 1);
        assert(pow2(1) == 2);
        assert(pow2(2) == 4);
        assert(pow2(3) == 8);
        assert(pow2(4) == 16);
        assert(pow2(5) == 32);
        assert(pow2(6) == 64);
        assert(pow2(7) == 128);
        assert(pow2(8) == 256);
        lemma_ones_bound(x as nat, 8);
    }
    while d != 0
        invariant
            n + ones(d as nat) == ones(x as nat),
            ones(x as nat) <= 8,
        decreases d,
    {
        assert(d & 1 == d % 2) by (bit_vector);
        assert(d >> 1 == d / 2) by (bit_vector);
        n = n + (d & 1) as u32;
        d = d >> 1;
    }
    n
}

/// The bitwise Hamming distance of the first `n` bytes of `a` and `b`.
pub open spec fn hamming_upto(a: Seq<u8>, b: Seq<u8>, n: nat) -> nat
    decreases n,
{
    if n == 0 {
        0
    } else {
        hamming_upto(a, b, (n - 1) as nat) + ones((a[n - 1] ^ b[n - 1]) as nat)
    }
}

/// The number of bits that differ between `a` and `b`, which have equal lengths.
pub open spec fn hamming(a: Seq<u8>, b: Seq<u8>) -> nat {
    hamming_upto(a, b, a.len())
}

/// Counts the bits that differ between two byte sequences of equal length.
pub fn hamming_distance(first: Vec<u8>, second: Vec<u8>) -> (r: Result<u32, CryptoError>)
    requires
        8 * first@.len() <= u32::MAX,
    ensures
        first@.len() != second@.len() <==> r == Err::<u32, CryptoError>(CryptoError::LengthMismatch),
        first@.len() == second@.len() ==> r is Ok && r->Ok_0 == hamming(first@, second@),
{
    if first.len() != second.len() {
        return Err(CryptoError::LengthMismatch);
    }
    let mut distance: u32 = 0;
    for i in 0..first.len()
        invariant
            first@.len() == second@.len(),
            8 * first@.len() <= u32::MAX,
            distance == hamming_upto(first@, second@, i as nat),
            distance <= 8 * i,
    {
        distance = distance + count_ones(first[i] ^ second[i]);
    }
    Ok(distance)
}

/// Recovers a repeating key of `key_size` bytes: byte `i` of the key is the
/// single-byte key found for column `i` of `cipher`.
pub fn do_key_speculation(cipher: &Vec<u8>, key_size: usize) -> (key: Vec<char>)
    ensures
        key@.len() == key_size,
        forall|i: int|
            0 <= i < key_size ==> is_best_key(
                column(cipher@, key_size as nat, i as nat),
                #[trigger] key@[i] as u32 as int,
            ),
{
    let chunks = chunk_by_size(cipher, key_size);
    let mut key: Vec<char> = Vec::new();
    for i in 0..key_size
        invariant
            chunks@.len() == key_size,
            forall|j: int| 0 <= j < key_size ==> #[trigger] chunks@[j]@ == column(cipher@, key_size as nat, j as nat),
            key@.len() == i,
            forall|j: int|
                0 <= j < i ==> is_best_key(
                    column(cipher@, key_size as nat, j as nat),
                    #[trigger] key@[j] as u32 as int,
                ),
    {
        let g = do_single_letter_key_speculation(chunks[i].clone());
        key.push(g.key);
    }
    key
}

} // verus!
