use vstd::prelude::*;
use vstd::slice::slice_subrange;
use vstd::string::*;

use crypto::buffer::{BufferResult, ReadBuffer, WriteBuffer};
use crypto::symmetriccipher::SymmetricCipherError;
use crypto::{aes, blockmodes, buffer};

verus! {

/// Length in bytes of the AES-128 key derived from a secret.
pub const KEY_LENGTH: usize = 16;

/// Size of the buffer that each pass of the cipher writes into.
pub const BUFFER_SIZE: usize = 4096;

/// The initialisation vector of every encryption.
pub const IV: [u8; 16] = [29, 153, 21, 5, 126, 118, 184, 57, 99, 160, 45, 169, 178, 57, 246, 186];

/// The key derived from a secret: the secret's bytes repeated as often as
/// needed and cut to the key length.
pub open spec fn padded_key(secret: Seq<u8>) -> Seq<u8> {
    Seq::new(KEY_LENGTH as nat, |i: int| secret[i % secret.len() as int])
}

/// The derived key is the secret repeated: it has the key length, it begins
/// with the secret (or the secret's first bytes, if the secret is longer),
/// and each byte equals the byte one secret-length earlier.
pub proof fn law_derived_key_repeats_secret(secret: Seq<u8>)
    requires
        secret.len() > 0,
    ensures
        padded_key(secret).len() == KEY_LENGTH,
        forall|i: int| 0 <= i < KEY_LENGTH && i < secret.len() ==> #[trigger] padded_key(secret)[i] == secret[i],
        forall|i: int| 0 <= i < KEY_LENGTH ==> #[trigger] padded_key(secret)[i] == secret[i % secret.len() as int],
        forall|i: int| secret.len() <= i < KEY_LENGTH ==> #[trigger] padded_key(secret)[i] == padded_key(secret)[i - secret.len()],
{
    let n = secret.len() as int;
    assert forall|i: int| 0 <= i < KEY_LENGTH && i < n implies #[trigger] padded_key(secret)[i] == secret[i] by {
        vstd::arithmetic::div_mod::lemma_small_mod(i as nat, n as nat);
    }
    assert forall|i: int| n <= i < KEY_LENGTH implies #[trigger] padded_key(secret)[i] == padded_key(secret)[i - n] by {
        vstd::arithmetic::div_mod::lemma_mod_sub_multiples_vanish(i, n);
        vstd::arithmetic::div_mod::lemma_mod_pos_bound(i - n, n);
    }
}

/// A secret and the same secret written twice derive the same key.
pub proof fn law_doubled_secret_same_key(secret: Seq<u8>)
    requires
        secret.len() > 0,
    ensures
        padded_key(secret + secret) == padded_key(secret),
{
    let n = secret.len() as int;
    let d = secret + secret;
    assert forall|i: int| 0 <= i < KEY_LENGTH implies #[trigger] padded_key(d)[i] == padded_key(secret)[i] by {
        let r = i % (2 * n);
        vstd::arithmetic::div_mod::lemma_mod_pos_bound(i, 2 * n);
        vstd::arithmetic::div_mod::lemma_mod_mod(i, n, 2);
        assert(n * 2 == 2 * n);
        vstd::arithmetic::div_mod::lemma_mod_pos_bound(i, n);
        if r < n {
            assert(d[r] == secret[r]);
            vstd::arithmetic::div_mod::lemma_small_mod(r as nat, n as nat);
        } else {
            assert(d[r] == secret[r - n]);
            vstd::arithmetic::div_mod::lemma_mod_sub_multiples_vanish(r, n);
            vstd::arithmetic::div_mod::lemma_small_mod((r - n) as nat, n as nat);
        }
    }
    assert(padded_key(d) =~= padded_key(secret));
}

/// Derives the AES-128 key from a secret.
pub fn pad_key(key: &str) -> (padded: Vec<u8>)
    requires
        key.spec_bytes().len() > 0,
    ensures
        padded@ == padded_key(key.spec_bytes()),
        padded@.len() == KEY_LENGTH,
        forall|i: int| 0 <= i < KEY_LENGTH ==> #[trigger] padded@[i] == key.spec_bytes()[i % key.spec_bytes().len() as int],
{
    let key_bytes = key.as_bytes();
    let len = key_bytes.len();
    let mut padded: Vec<u8> = Vec::with_capacity(KEY_LENGTH);
    let mut i: usize = 0;
    while i < KEY_LENGTH
        invariant
            len == key_bytes@.len(),
            len > 0,
            key_bytes@ == key.spec_bytes(),
            i <= KEY_LENGTH,
            padded@ == padded_key(key_bytes@).take(i as int),
        decreases KEY_LENGTH - i,
    {
        padded.push(key_bytes[i % len]);
        i = i + 1;
        assert(padded@ =~= padded_key(key_bytes@).take(i as int));
    }
    assert(padded@ =~= padded_key(key_bytes@));
    proof {
        law_derived_key_repeats_secret(key_bytes@);
    }
    padded
}

/// Why the cipher refused its input.
#[derive(Debug, Clone, Copy, PartialEq, Eq, Structural)]
pub enum CipherError {
    /// The input was not a whole number of blocks.
    InvalidLength,
    /// The last block did not end in valid padding.
    InvalidPadding,
}

/// What one pass of the cipher produced: the bytes written to the output
/// buffer, how much of the input it left unread, and whether it is done
/// (the cipher asked for more input rather than more room to write).
pub struct CipherPass {
    pub output: Vec<u8>,
    pub remaining: usize,
    pub finished: bool,
}

/// One pass of the cipher, as mathematical values.
pub struct CipherPassView {
    pub output: Seq<u8>,
    pub remaining: nat,
    pub finished: bool,
}

impl View for CipherPass {
    type V = CipherPassView;

    open spec fn view(&self) -> CipherPassView {
        CipherPassView { output: self.output@, remaining: self.remaining as nat, finished: self.finished }
    }
}

/// How a pass of a cipher ends: with output, with an error, or without
/// returning (decryption panics in the crate when the padding byte of the
/// last block is larger than the block).
pub enum PassOutcome {
    Done(CipherPassView),
    Failed(CipherError),
    Aborts,
}

/// What one pass of a fresh AES-128-CBC encryptor with PKCS padding yields
/// on the given key, initialisation vector, input (all of it, marked as the
/// last) and output room.
pub uninterp spec fn cbc_encrypt_pass(key: Seq<u8>, iv: Seq<u8>, input: Seq<u8>, capacity: nat) -> CipherPassView;

/// How one pass of a fresh AES-128-CBC decryptor with PKCS padding ends on
/// the given key, initialisation vector, input (all of it, marked as the
/// last) and output room.
pub uninterp spec fn cbc_decrypt_pass(key: Seq<u8>, iv: Seq<u8>, input: Seq<u8>, capacity: nat) -> PassOutcome;

/// `aes::cbc_encryptor` (128-bit key, PKCS padding), then one call of
/// `Encryptor::encrypt` on the whole input, marked as the last, into an
/// empty output buffer of the given size. Besides naming the outcome, the
/// contract states what the crate's block engine shows: the pass reads
/// part of its input, it stops short of the end only when the output
/// buffer is full and then has read at least one byte, and it writes at
/// most one block more than it read.
#[verifier::external_body]
fn cbc_encrypt_chunk(key: &[u8], iv: &[u8], input: &[u8], capacity: usize) -> (pass: CipherPass)
    requires
        key@.len() == 16,
        iv@.len() == 16,
        capacity <= usize::MAX / 2,
    ensures
        pass@ == cbc_encrypt_pass(key@, iv@, input@, capacity as nat),
        pass.remaining <= input@.len(),
        !pass.finished ==> pass.remaining < input@.len(),
        pass.output@.len() <= input@.len() - pass.remaining + 16,
{
    let mut encryptor = aes::cbc_encryptor(aes::KeySize::KeySize128, key, iv, blockmodes::PkcsPadding);
    let mut read_buffer = buffer::RefReadBuffer::new(input);
    let mut out = vec![0u8; capacity];
    let mut write_buffer = buffer::RefWriteBuffer::new(&mut out);
    let result = encryptor.encrypt(&mut read_buffer, &mut write_buffer, true);
    let output = write_buffer.take_read_buffer().take_remaining().to_vec();
    let finished = match result {
        Ok(BufferResult::BufferUnderflow) => true,
        _ => false,
    };
    CipherPass { output, remaining: read_buffer.remaining(), finished }
}

/// `aes::cbc_decryptor` (128-bit key, PKCS padding), then one call of
/// `Decryptor::decrypt` on the whole input, marked as the last, into an
/// empty output buffer of the given size, with the crate's error mapped to
/// the library's. Inputs on which the crate panics are left out. Besides
/// naming the outcome, the contract states what the crate's block engine
/// shows: a pass that returns reads part of its input, stops short of the
/// end only when the output buffer is full and then has read at least one
/// byte, and writes at most what it read.
#[verifier::external_body]
fn cbc_decrypt_chunk(key: &[u8], iv: &[u8], input: &[u8], capacity: usize) -> (pass: Result<CipherPass, CipherError>)
    requires
        key@.len() == 16,
        iv@.len() == 16,
        capacity <= usize::MAX / 2,
        !(cbc_decrypt_pass(key@, iv@, input@, capacity as nat) is Aborts),
    ensures
        match cbc_decrypt_pass(key@, iv@, input@, capacity as nat) {
            PassOutcome::Done(p) => pass matches Ok(q) && q@ == p,
            PassOutcome::Failed(e) => pass == Err::<CipherPass, CipherError>(e),
            PassOutcome::Aborts => false,
        },
        pass matches Ok(q) ==> q.remaining <= input@.len() && (!q.finished ==> q.remaining < input@.len())
            && q.output@.len() <= input@.len() - q.remaining + 16,
{
    let mut decryptor = aes::cbc_decryptor(aes::KeySize::KeySize128, key, iv, blockmodes::PkcsPadding);
    let mut read_buffer = buffer::RefReadBuffer::new(input);
    let mut out = vec![0u8; capacity];
    let mut write_buffer = buffer::RefWriteBuffer::new(&mut out);
    let result = decryptor.decrypt(&mut read_buffer, &mut write_buffer, true);
    let output = write_buffer.take_read_buffer().take_remaining().to_vec();
    match result {
        Ok(BufferResult::BufferUnderflow) => Ok(CipherPass { output, remaining: read_buffer.remaining(), finished: true }),
        Ok(BufferResult::BufferOverflow) => Ok(CipherPass { output, remaining: read_buffer.remaining(), finished: false }),
        Err(SymmetricCipherError::InvalidLength) => Err(CipherError::InvalidLength),
        Err(SymmetricCipherError::InvalidPadding) => Err(CipherError::InvalidPadding),
    }
}

/// The character of the standard base64 alphabet for a six-bit value.
pub open spec fn base64_char(v: int) -> char {
    if v < 26 {
        (65 + v) as char
    } else if v < 52 {
        (97 + v - 26) as char
    } else if v < 62 {
        (48 + v - 52) as char
    } else if v == 62 {
        '+'
    } else {
        '/'
    }
}

/// Standard base64 with padding (RFC 4648): each group of three bytes
/// becomes four characters; a last group of one or two bytes is padded
/// with `=`.
pub open spec fn base64_encode(bytes: Seq<u8>) -> Seq<char>
    decreases bytes.len(),
{
    if bytes.len() == 0 {
        seq![]
    } else {
        let b0 = bytes[0] as int;
        let b1 = if bytes.len() > 1 { bytes[1] as int } else { 0 };
        let b2 = if bytes.len() > 2 { bytes[2] as int } else { 0 };
        let c0 = base64_char(b0 / 4);
        let c1 = base64_char((b0 % 4) * 16 + b1 / 16);
        let c2 = base64_char((b1 % 16) * 4 + b2 / 64);
        let c3 = base64_char(b2 % 64);
        if bytes.len() == 1 {
            seq![c0, c1, '=', '=']
        } else if bytes.len() == 2 {
            seq![c0, c1, c2, '=']
        } else {
            seq![c0, c1, c2, c3] + base64_encode(bytes.skip(3))
        }
    }
}

/// Base64 writes four characters for every three bytes or part of three.
pub proof fn law_base64_length(bytes: Seq<u8>)
    ensures
        base64_encode(bytes).len() == (bytes.len() + 2) / 3 * 4,
    decreases bytes.len(),
{
    if bytes.len() >= 3 {
        law_base64_length(bytes.skip(3));
        assert((bytes.len() + 2) / 3 == (bytes.len() - 1) / 3 + 1);
    }
}

/// `base64::encode`: standard base64 with padding. The crate panics only
/// when the encoded length overflows `usize`, which the bound rules out.
#[verifier::external_body]
fn encode_base64(bytes: &[u8]) -> (encoded: String)
    requires
        bytes@.len() <= usize::MAX / 2,
    ensures
        encoded@ == base64_encode(bytes@),
{
    base64::encode(bytes)
}

/// The secret from which `decrypt` derives its key.
pub open spec fn fixed_secret() -> Seq<u8> {
    seq![49u8, 113u8, 50u8, 119u8, 35u8, 69u8, 36u8, 82u8]
}

/// Puts bytes in front of a successful result and leaves an error as it is.
pub open spec fn prepend(prefix: Seq<u8>, rest: Result<Seq<u8>, CipherError>) -> Result<Seq<u8>, CipherError> {
    match rest {
        Ok(bytes) => Ok(prefix + bytes),
        Err(e) => Err(e),
    }
}

/// How one pass of a fresh cipher, of the given direction, ends on the
/// given input with a buffer of `BUFFER_SIZE` bytes.
pub open spec fn pass_outcome(decrypting: bool, key: Seq<u8>, input: Seq<u8>) -> PassOutcome {
    if decrypting {
        cbc_decrypt_pass(key, IV@, input, BUFFER_SIZE as nat)
    } else {
        PassOutcome::Done(cbc_encrypt_pass(key, IV@, input, BUFFER_SIZE as nat))
    }
}

/// What running passes of fresh ciphers yields, each pass starting on what
/// the previous one left unread, until one is done: the passes' output
/// joined, or the first error.
pub open spec fn cipher_passes(decrypting: bool, key: Seq<u8>, input: Seq<u8>) -> Result<Seq<u8>, CipherError>
    decreases input.len(),
{
    match pass_outcome(decrypting, key, input) {
        PassOutcome::Done(p) => if p.finished || p.remaining >= input.len() {
            Ok(p.output)
        } else {
            prepend(p.output, cipher_passes(decrypting, key, input.skip(input.len() - p.remaining)))
        },
        PassOutcome::Failed(e) => Err(e),
        PassOutcome::Aborts => Err(CipherError::InvalidLength),
    }
}

/// Whether every pass of `cipher_passes` returns.
pub open spec fn passes_return(decrypting: bool, key: Seq<u8>, input: Seq<u8>) -> bool
    decreases input.len(),
{
    match pass_outcome(decrypting, key, input) {
        PassOutcome::Done(p) => p.finished || p.remaining >= input.len()
            || passes_return(decrypting, key, input.skip(input.len() - p.remaining)),
        PassOutcome::Failed(_) => true,
        PassOutcome::Aborts => false,
    }
}

/// Runs the cipher over `data` with the key derived from the fixed secret,
/// decrypting when `decrypting` holds and encrypting otherwise, and encodes
/// the result in base64. Each pass starts a fresh cipher on the input left
/// unread, and writes into a buffer of `BUFFER_SIZE` bytes.
fn crypto(data: &[u8], decrypting: bool) -> (r: Result<String, CipherError>)
    requires
        data@.len() <= usize::MAX / 64,
        passes_return(decrypting, padded_key(fixed_secret()), data@),
    ensures
        match cipher_passes(decrypting, padded_key(fixed_secret()), data@) {
            Ok(bytes) => r matches Ok(s) && s@ == base64_encode(bytes),
            Err(e) => r == Err::<String, CipherError>(e),
        },
{
    let secret = "1q2w#E$R";
    proof {
        reveal_strlit("1q2w#E$R");
        broadcast use vstd::string::is_ascii_spec_bytes;
        assert(is_ascii(secret));
        assert(secret.spec_bytes() =~= fixed_secret());
    }
    let key = pad_key(secret);
    let ghost k = key@;
    let iv = IV.as_slice();
    let mut final_result: Vec<u8> = Vec::new();
    let mut pos: usize = 0;
    proof {
        assert(data@.skip(0) =~= data@);
        assert(final_result@ + Seq::<u8>::empty() =~= Seq::<u8>::empty());
    }
    loop
        invariant_except_break
            passes_return(decrypting, k, data@.skip(pos as int)),
            prepend(final_result@, cipher_passes(decrypting, k, data@.skip(pos as int)))
                == cipher_passes(decrypting, k, data@),
            final_result@.len() <= 17 * pos,
        invariant
            pos <= data@.len(),
            data@.len() <= usize::MAX / 64,
            key@ == k,
            k == padded_key(fixed_secret()),
            k.len() == 16,
            iv@ == IV@,
        ensures
            cipher_passes(decrypting, k, data@) == Ok::<Seq<u8>, CipherError>(final_result@),
            final_result@.len() <= 17 * data@.len() + 16,
        decreases data@.len() - pos,
    {
        let rest = slice_subrange(data, pos, data.len());
        assert(rest@ =~= data@.skip(pos as int));
        let pass = if decrypting {
            match cbc_decrypt_chunk(key.as_slice(), iv, rest, BUFFER_SIZE) {
                Ok(p) => p,
                Err(e) => {
                    return Err(e);
                },
            }
        } else {
            cbc_encrypt_chunk(key.as_slice(), iv, rest, BUFFER_SIZE)
        };
        let ghost before = final_result@;
        let mut output = pass.output;
        final_result.append(&mut output);
        if pass.finished {
            assert(final_result@ =~= before + pass.output@);
            break;
        }
        let ghost skipped = rest@.skip(rest@.len() - pass.remaining);
        pos = data.len() - pass.remaining;
        proof {
            assert(skipped =~= data@.skip(pos as int));
            assert(final_result@ =~= before + pass.output@);
            let tail = cipher_passes(decrypting, k, skipped);
            match tail {
                Ok(b) => assert(before + pass.output@ + b =~= before + (pass.output@ + b)),
                Err(_) => {},
            }
        }
    }
    Ok(encode_base64(final_result.as_slice()))
}

/// Encrypting passes never fail and always return.
proof fn lemma_encrypting_passes_succeed(key: Seq<u8>, input: Seq<u8>)
    ensures
        passes_return(false, key, input),
        cipher_passes(false, key, input) is Ok,
    decreases input.len(),
{
    let p = cbc_encrypt_pass(key, IV@, input, BUFFER_SIZE as nat);
    if !(p.finished || p.remaining >= input.len()) {
        lemma_encrypting_passes_succeed(key, input.skip(input.len() - p.remaining));
    }
}

/// Encrypts `data` with AES-128-CBC and PKCS padding under the key derived
/// from the secret `key`, and encodes the ciphertext in base64. The output
/// buffer holds the whole ciphertext, so a single call of the cipher drains
/// it.
pub fn encrypt(data: &str, key: &str) -> (r: Result<String, CipherError>)
    requires
        key.spec_bytes().len() > 0,
        data.spec_bytes().len() <= usize::MAX / 2 - 16,
    ensures
        r matches Ok(s) && s@ == base64_encode(
            cbc_encrypt_pass(padded_key(key.spec_bytes()), IV@, data.spec_bytes(), data.spec_bytes().len() + 16).output,
        ),
{
    let data = data.as_bytes();
    let key = pad_key(key);
    let pass = cbc_encrypt_chunk(key.as_slice(), IV.as_slice(), data, data.len() + 16);
    Ok(encode_base64(pass.output.as_slice()))
}

/// Runs the cipher over `encrypted_data` under the key derived from the
/// fixed secret, in the direction that `crypto` takes when it is not asked to
/// decrypt, which is to say it encrypts, and encodes the result in base64.
pub fn decrypt(encrypted_data: &str) -> (r: Result<String, CipherError>)
    requires
        encrypted_data.spec_bytes().len() <= usize::MAX / 64,
    ensures
        cipher_passes(false, padded_key(fixed_secret()), encrypted_data.spec_bytes()) matches Ok(bytes)
            && r matches Ok(s) && s@ == base64_encode(bytes),
{
    proof {
        lemma_encrypting_passes_succeed(padded_key(fixed_secret()), encrypted_data.spec_bytes());
    }
    crypto(encrypted_data.as_bytes(), false)
}

} // verus!
