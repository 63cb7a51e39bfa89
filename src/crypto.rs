//! The cryptographic and encoding primitives the store is built on, each
//! behind a small trusted wrapper around the crate that provides it.
use aes_gcm::aead::rand_core::RngCore;
use aes_gcm::aead::{Aead, OsRng};
use aes_gcm::{Aes256Gcm, Key, KeyInit, Nonce};
use base64::engine::general_purpose;
use base64::Engine;
use vstd::prelude::*;
use vstd::string::StringSliceAdditionalSpecFns;

verus! {

/// Length in bytes of an AES-256 key.
pub const KEY_LEN: usize = 32;

/// Length in bytes of an AES-GCM nonce.
pub const NONCE_LEN: usize = 12;

/// Length in bytes of the authentication tag appended to each ciphertext.
pub const TAG_LEN: usize = 16;

/// Longest plaintext AES-GCM accepts, in bytes.
pub const MAX_PLAINTEXT: u64 = 68719476736;

/// base64's decoding error, which the decode wrapper hands back.
#[verifier::external_type_specification]
#[verifier::external_body]
pub struct ExDecodeError(base64::DecodeError);

/// aes_gcm's (opaque) error, which the cipher wrappers hand back.
#[verifier::external_type_specification]
#[verifier::external_body]
pub struct ExAeadError(aes_gcm::Error);

/// The symbol for a 6-bit value in the standard base64 alphabet:
/// `A`-`Z`, `a`-`z`, `0`-`9`, `+`, `/`.
pub open spec fn base64_symbol(x: u8) -> u8 {
    if x < 26 {
        (65 + x) as u8
    } else if x < 52 {
        (97 + (x - 26)) as u8
    } else if x < 62 {
        (48 + (x - 52)) as u8
    } else if x == 62 {
        43
    } else {
        47
    }
}

/// The standard, padded base64 text of a byte string: each group of three
/// bytes becomes four symbols of six bits each; a last group of one or two
/// bytes is padded with `=`.
pub open spec fn base64_of(b: Seq<u8>) -> Seq<u8>
    decreases b.len(),
{
    if b.len() == 0 {
        Seq::empty()
    } else if b.len() == 1 {
        seq![base64_symbol(b[0] >> 2), base64_symbol((b[0] & 3) << 4), 61u8, 61u8]
    } else if b.len() == 2 {
        seq![
            base64_symbol(b[0] >> 2),
            base64_symbol(((b[0] & 3) << 4) | (b[1] >> 4)),
            base64_symbol((b[1] & 15) << 2),
            61u8,
        ]
    } else {
        seq![
            base64_symbol(b[0] >> 2),
            base64_symbol(((b[0] & 3) << 4) | (b[1] >> 4)),
            base64_symbol(((b[1] & 15) << 2) | (b[2] >> 6)),
            base64_symbol(b[2] & 63),
        ] + base64_of(b.subrange(3, b.len() as int))
    }
}

/// The AES-256-GCM ciphertext (with its tag appended) of `plaintext`.
pub uninterp spec fn sealed(key: Seq<u8>, nonce: Seq<u8>, plaintext: Seq<u8>) -> Seq<u8>;

/// The 32-byte PBKDF2-HMAC-SHA256 output for a password and a salt.
pub uninterp spec fn pbkdf2_sha256(password: Seq<u8>, salt: Seq<u8>, rounds: u32) -> Seq<u8>;

/// Length of the padded base64 text of `n` bytes.
pub open spec fn base64_len(n: nat) -> nat {
    4 * ((n + 2) / 3)
}

/// A byte of the standard base64 alphabet, padding included.
pub open spec fn is_base64_byte(b: u8) -> bool {
    (65 <= b <= 90) || (97 <= b <= 122) || (48 <= b <= 57) || b == 43 || b == 47 || b == 61
}

/// The length of the base64 text, and its alphabet.
pub proof fn lemma_base64(b: Seq<u8>)
    ensures
        base64_of(b).len() == base64_len(b.len() as nat),
        forall|i: int| 0 <= i < base64_of(b).len() ==> is_base64_byte(#[trigger] base64_of(b)[i]),
    decreases b.len(),
{
    if b.len() >= 3 {
        lemma_base64(b.subrange(3, b.len() as int));
        let head = seq![
            base64_symbol(b[0] >> 2),
            base64_symbol(((b[0] & 3) << 4) | (b[1] >> 4)),
            base64_symbol(((b[1] & 15) << 2) | (b[2] >> 6)),
            base64_symbol(b[2] & 63),
        ];
        let rest = base64_of(b.subrange(3, b.len() as int));
        assert(base64_of(b) == head + rest);
        assert forall|i: int| 0 <= i < base64_of(b).len() implies is_base64_byte(
            #[trigger] base64_of(b)[i],
        ) by {
            if i >= 4 {
                assert(base64_of(b)[i] == rest[i - 4]);
            }
        }
    }
}

/// Relies on base64's `STANDARD` engine `encode`: the padded text over
/// the standard alphabet.
#[verifier::external_body]
pub(crate) fn encode_base64(bytes: &[u8]) -> (r: Vec<u8>)
    requires
        base64_len(bytes@.len() as nat) <= usize::MAX,
    ensures
        r@ == base64_of(bytes@),
{
    general_purpose::STANDARD.encode(bytes).into_bytes()
}

/// Relies on base64's `STANDARD` engine `decode`: the text of a byte
/// string decodes back to that byte string, and (padding and trailing
/// bits being canonical) only such text decodes; three bytes come from
/// every four symbols, so the bytes are never more than the text.
#[verifier::external_body]
pub(crate) fn decode_base64(text: &[u8]) -> (r: Result<Vec<u8>, base64::DecodeError>)
    ensures
        forall|b: Seq<u8>|
            #[trigger] base64_of(b) == text@ ==> (r is Ok && r->Ok_0@ == b),
        r is Ok ==> base64_of(r->Ok_0@) == text@,
        r is Ok ==> r->Ok_0@.len() <= text@.len(),
{
    general_purpose::STANDARD.decode(text)
}

/// Relies on aes_gcm's `Aes256Gcm::encrypt` (no associated data): it fails
/// only past the AES-GCM length limit, and appends a 16-byte tag.
#[verifier::external_body]
pub(crate) fn aead_encrypt(key: &[u8], nonce: &[u8], plaintext: &[u8]) -> (r: Result<
    Vec<u8>,
    aes_gcm::Error,
>)
    requires
        key@.len() == KEY_LEN,
        nonce@.len() == NONCE_LEN,
    ensures
        r is Ok <==> plaintext@.len() <= MAX_PLAINTEXT,
        r is Ok ==> r->Ok_0@ == sealed(key@, nonce@, plaintext@),
        r is Ok ==> r->Ok_0@.len() == plaintext@.len() + TAG_LEN,
{
    let cipher = Aes256Gcm::new(Key::<Aes256Gcm>::from_slice(key));
    cipher.encrypt(Nonce::from_slice(nonce), plaintext)
}

/// Relies on aes_gcm's `Aes256Gcm::decrypt` (no associated data): a
/// ciphertext made under the same key and nonce opens to its plaintext,
/// and a ciphertext opens only when its tag checks, that is, when it is
/// the sealing of what it opens to under this key and nonce; the 16-byte
/// tag is stripped from what it opens to.
#[verifier::external_body]
pub(crate) fn aead_decrypt(key: &[u8], nonce: &[u8], ciphertext: &[u8]) -> (r: Result<
    Vec<u8>,
    aes_gcm::Error,
>)
    requires
        key@.len() == KEY_LEN,
        nonce@.len() == NONCE_LEN,
    ensures
        forall|p: Seq<u8>|
            p.len() <= MAX_PLAINTEXT && #[trigger] sealed(key@, nonce@, p) == ciphertext@ ==> (
            r is Ok && r->Ok_0@ == p),
        r is Ok ==> sealed(key@, nonce@, r->Ok_0@) == ciphertext@,
        r is Ok ==> r->Ok_0@.len() + TAG_LEN == ciphertext@.len(),
{
    let cipher = Aes256Gcm::new(Key::<Aes256Gcm>::from_slice(key));
    cipher.decrypt(Nonce::from_slice(nonce), ciphertext)
}

/// Relies on pbkdf2's `pbkdf2_hmac_array` with SHA-256: a 32-byte key that
/// depends on the password, the salt and the round count alone.
#[verifier::external_body]
fn pbkdf2_hmac_sha256(password: &[u8], salt: &[u8], rounds: u32) -> (r: Vec<u8>)
    ensures
        r@ == pbkdf2_sha256(password@, salt@, rounds),
        r@.len() == KEY_LEN,
{
    pbkdf2::pbkdf2_hmac_array::<sha2::Sha256, 32>(password, salt, rounds).to_vec()
}

/// Relies on `OsRng::fill_bytes` from aes_gcm's re-export of rand_core:
/// `n` bytes from the operating system's generator (it panics if that
/// generator fails).  Nothing is known of the bytes but their number.
#[verifier::external_body]
pub(crate) fn random_bytes(n: usize) -> (r: Vec<u8>)
    ensures
        r@.len() == n,
{
    let mut bytes = vec![0u8; n];
    OsRng.fill_bytes(&mut bytes);
    bytes
}

/// A nonce to replace `old`: the drawn one, or, in the unlikely case that
/// it equals `old`, the drawn one with its first byte changed.  A nonce is
/// never reused under a key.
pub fn fresh_nonce(old: &[u8], drawn: Vec<u8>) -> (r: Vec<u8>)
    requires
        drawn@.len() == NONCE_LEN,
    ensures
        r@.len() == NONCE_LEN,
        r@ != old@,
{
    if old.len() != drawn.len() {
        return drawn;
    }
    let mut i: usize = 0;
    while i < drawn.len()
        invariant
            0 <= i <= drawn@.len(),
            drawn@.len() == NONCE_LEN,
            old@.len() == drawn@.len(),
            forall|k: int| 0 <= k < i ==> old@[k] == drawn@[k],
        decreases drawn@.len() - i,
    {
        if old[i] != drawn[i] {
            return drawn;
        }
        i = i + 1;
    }
    assert(old@ =~= drawn@);
    let mut r = drawn;
    let first = r[0];
    r.set(0, if first == 255 { 0 } else { first + 1 });
    assert(r@[0] != old@[0]);
    r
}

/// A freshly drawn nonce different from `old`.
pub fn new_nonce(old: &[u8]) -> (r: Vec<u8>)
    ensures
        r@.len() == NONCE_LEN,
        r@ != old@,
{
    fresh_nonce(old, random_bytes(NONCE_LEN))
}

/// Folder names are dates in this form.
pub const FOLDER_DATE_PATTERN: &'static str = "%d/%m/%Y";

/// Entry timestamps are local times of day in this form.
pub const ENTRY_TIME_PATTERN: &'static str = "%I:%M:%S %p";

/// Relies on chrono's `Local::now` rendered through `format(pattern)`:
/// the local wall-clock time as text.  Nothing is known of it.  Rendering
/// panics on a pattern chrono cannot read, so only the two patterns above
/// are admitted.
#[verifier::external_body]
pub(crate) fn local_time_text(pattern: &str) -> (r: String)
    requires
        pattern@ == FOLDER_DATE_PATTERN@ || pattern@ == ENTRY_TIME_PATTERN@,
{
    chrono::Local::now().format(pattern).to_string()
}

/// Number of PBKDF2 rounds used to turn a password into the catalog key.
pub const KDF_ROUNDS: u32 = 100000;

/// The key that encrypts the catalog: PBKDF2-HMAC-SHA256 of the password
/// and the store's salt, 100,000 rounds, 32 bytes.
pub fn derive_key(password: &str, salt: &[u8]) -> (r: Vec<u8>)
    ensures
        r@ == pbkdf2_sha256(password.spec_bytes(), salt@, KDF_ROUNDS),
        r@.len() == KEY_LEN,
{
    pbkdf2_hmac_sha256(password.as_bytes(), salt, KDF_ROUNDS)
}

} // verus!
