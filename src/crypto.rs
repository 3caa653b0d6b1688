use vstd::prelude::*;
use vstd::arithmetic::div_mod::*;
use vstd::string::StringSliceAdditionalSpecFns;
use crate::binio::{byte_of, le_u32, lemma_bytes_of_le_u32, lemma_le_u32_of_bytes, read_le_u32, word_byte};

verus! {

/// The constant added to the running sum once per cycle.
pub const DELTA: u32 = 0x9e37_79b9;

pub open spec fn add32(a: u32, b: u32) -> u32 {
    vstd::wrapping::u32_specs::wrapping_add(a, b)
}

pub open spec fn sub32(a: u32, b: u32) -> u32 {
    vstd::wrapping::u32_specs::wrapping_sub(a, b)
}

/// The per-position mixing function of the cipher.
pub open spec fn mix(y: u32, z: u32, sum: u32, k: u32) -> u32 {
    add32((z >> 5u32) ^ (y << 2u32), (y >> 3u32) ^ (z << 4u32)) ^ add32(sum ^ y, k ^ z)
}

/// Number of full cycles for a block of `n` words.
pub open spec fn rounds_for(n: int) -> int {
    6 + 52int / n
}

/// Index of the key word used at position `r` in a cycle whose sum is `sum`.
pub open spec fn key_index(r: int, sum: u32) -> int {
    ((r as usize ^ (sum >> 2u32) as usize) & 3usize) as int
}

/// The running sum after `c` cycles.
pub open spec fn cycle_sum(c: nat) -> u32
    decreases c,
{
    if c == 0 {
        0
    } else {
        add32(cycle_sum((c - 1) as nat), DELTA)
    }
}

pub open spec fn right_of(w: Seq<u32>, r: int) -> u32 {
    w[(r + 1) % w.len() as int]
}

pub open spec fn left_of(w: Seq<u32>, r: int) -> u32 {
    w[(r + w.len() - 1) % w.len() as int]
}

pub open spec fn step_mix(w: Seq<u32>, r: int, sum: u32, key: Seq<u32>) -> u32 {
    mix(right_of(w, r), left_of(w, r), sum, key[key_index(r, sum)])
}

/// Encryption of position `r`.
pub open spec fn enc_step(w: Seq<u32>, r: int, sum: u32, key: Seq<u32>) -> Seq<u32> {
    w.update(r, add32(w[r], step_mix(w, r, sum, key)))
}

/// Decryption of position `r`.
pub open spec fn dec_step(w: Seq<u32>, r: int, sum: u32, key: Seq<u32>) -> Seq<u32> {
    w.update(r, sub32(w[r], step_mix(w, r, sum, key)))
}

/// Encryption of positions `0..k`, in ascending order.
pub open spec fn enc_positions(w: Seq<u32>, k: nat, sum: u32, key: Seq<u32>) -> Seq<u32>
    decreases k,
{
    if k == 0 {
        w
    } else {
        let prev = enc_positions(w, (k - 1) as nat, sum, key);
        enc_step(prev, k - 1, sum, key)
    }
}

/// Decryption of positions `k-1` down to `0`.
pub open spec fn dec_positions(w: Seq<u32>, k: nat, sum: u32, key: Seq<u32>) -> Seq<u32>
    decreases k,
{
    if k == 0 {
        w
    } else {
        dec_positions(dec_step(w, k - 1, sum, key), (k - 1) as nat, sum, key)
    }
}

/// The first `c` encryption cycles.
pub open spec fn enc_cycles(w: Seq<u32>, c: nat, key: Seq<u32>) -> Seq<u32>
    decreases c,
{
    if c == 0 {
        w
    } else {
        enc_positions(enc_cycles(w, (c - 1) as nat, key), w.len(), cycle_sum(c), key)
    }
}

/// Decryption cycles `c` down to `1`.
pub open spec fn dec_cycles(w: Seq<u32>, c: nat, key: Seq<u32>) -> Seq<u32>
    decreases c,
{
    if c == 0 {
        w
    } else {
        dec_cycles(dec_positions(w, w.len(), cycle_sum(c), key), (c - 1) as nat, key)
    }
}

/// The cipher on a sequence of words.
pub open spec fn encrypt_words(w: Seq<u32>, key: Seq<u32>) -> Seq<u32> {
    enc_cycles(w, rounds_for(w.len() as int) as nat, key)
}

/// The inverse cipher on a sequence of words.
pub open spec fn decrypt_words(w: Seq<u32>, key: Seq<u32>) -> Seq<u32> {
    dec_cycles(w, rounds_for(w.len() as int) as nat, key)
}

/// The little-endian words of `b`; trailing bytes that make no full word are left out.
pub open spec fn le_words(b: Seq<u8>) -> Seq<u32> {
    Seq::new(
        (b.len() / 4) as nat,
        |i: int| le_u32(b[4 * i], b[4 * i + 1], b[4 * i + 2], b[4 * i + 3]),
    )
}

/// `b` with its leading full words replaced by the little-endian bytes of `w`.
pub open spec fn put_words(b: Seq<u8>, w: Seq<u32>) -> Seq<u8> {
    Seq::new(
        b.len(),
        |i: int|
            if i < 4 * w.len() {
                byte_of(w[i / 4], i % 4)
            } else {
                b[i]
            },
    )
}

/// What encryption makes of a buffer: its full words enciphered, the rest kept.
pub open spec fn encrypted(key: Seq<u32>, b: Seq<u8>) -> Seq<u8> {
    put_words(b, encrypt_words(le_words(b), key))
}

/// What decryption makes of a buffer: its full words deciphered, the rest kept.
pub open spec fn decrypted(key: Seq<u32>, b: Seq<u8>) -> Seq<u8> {
    put_words(b, decrypt_words(le_words(b), key))
}

proof fn lemma_enc_positions_len(w: Seq<u32>, k: nat, sum: u32, key: Seq<u32>)
    requires
        k <= w.len(),
    ensures
        enc_positions(w, k, sum, key).len() == w.len(),
    decreases k,
{
    if k > 0 {
        lemma_enc_positions_len(w, (k - 1) as nat, sum, key);
    }
}

proof fn lemma_enc_cycles_len(w: Seq<u32>, c: nat, key: Seq<u32>)
    ensures
        enc_cycles(w, c, key).len() == w.len(),
    decreases c,
{
    if c > 0 {
        lemma_enc_cycles_len(w, (c - 1) as nat, key);
        lemma_enc_positions_len(enc_cycles(w, (c - 1) as nat, key), w.len(), cycle_sum(c), key);
    }
}

proof fn lemma_step_inverse(w: Seq<u32>, r: int, sum: u32, key: Seq<u32>)
    requires
        w.len() >= 2,
        0 <= r < w.len(),
    ensures
        dec_step(enc_step(w, r, sum, key), r, sum, key) == w,
{
    let n = w.len() as int;
    let v = enc_step(w, r, sum, key);
    assert((r + 1) % n != r) by {
        if r + 1 < n {
            lemma_small_mod((r + 1) as nat, n as nat);
        } else {
            lemma_mod_self_0(n);
        }
    }
    assert((r + n - 1) % n != r) by {
        if r >= 1 {
            lemma_mod_add_multiples_vanish(r - 1, n);
            lemma_small_mod((r - 1) as nat, n as nat);
        } else {
            lemma_small_mod((n - 1) as nat, n as nat);
        }
    }
    assert(step_mix(v, r, sum, key) == step_mix(w, r, sum, key));
    let a = w[r];
    let m = step_mix(w, r, sum, key);
    assert(sub32(add32(a, m), m) == a);
    assert(dec_step(v, r, sum, key) =~= w);
}

proof fn lemma_positions_inverse(w: Seq<u32>, k: nat, sum: u32, key: Seq<u32>)
    requires
        w.len() >= 2,
        k <= w.len(),
    ensures
        dec_positions(enc_positions(w, k, sum, key), k, sum, key) == w,
    decreases k,
{
    if k > 0 {
        let prev = enc_positions(w, (k - 1) as nat, sum, key);
        lemma_enc_positions_len(w, (k - 1) as nat, sum, key);
        lemma_step_inverse(prev, k - 1, sum, key);
        lemma_positions_inverse(w, (k - 1) as nat, sum, key);
    }
}

proof fn lemma_cycles_inverse(w: Seq<u32>, c: nat, key: Seq<u32>)
    requires
        w.len() >= 2,
    ensures
        dec_cycles(enc_cycles(w, c, key), c, key) == w,
    decreases c,
{
    if c > 0 {
        let prev = enc_cycles(w, (c - 1) as nat, key);
        lemma_enc_cycles_len(w, (c - 1) as nat, key);
        lemma_enc_cycles_len(w, c, key);
        lemma_positions_inverse(prev, w.len(), cycle_sum(c), key);
        lemma_cycles_inverse(w, (c - 1) as nat, key);
    }
}

proof fn lemma_words_of_put(b: Seq<u8>, w: Seq<u32>)
    requires
        w.len() == b.len() / 4,
    ensures
        le_words(put_words(b, w)) =~= w,
{
    let p = put_words(b, w);
    assert forall|i: int| 0 <= i < w.len() implies #[trigger] le_words(p)[i] == w[i] by {
        assert(p[4 * i] == byte_of(w[i], 0));
        assert(p[4 * i + 1] == byte_of(w[i], 1));
        assert(p[4 * i + 2] == byte_of(w[i], 2));
        assert(p[4 * i + 3] == byte_of(w[i], 3));
        lemma_le_u32_of_bytes(w[i]);
    }
}

proof fn lemma_put_of_words(b: Seq<u8>)
    ensures
        put_words(b, le_words(b)) =~= b,
{
    let w = le_words(b);
    assert forall|i: int| 0 <= i < b.len() implies #[trigger] put_words(b, w)[i] == b[i] by {
        if i < 4 * w.len() {
            let q = i / 4;
            lemma_bytes_of_le_u32(b[4 * q], b[4 * q + 1], b[4 * q + 2], b[4 * q + 3]);
        }
    }
}

proof fn lemma_put_put(b: Seq<u8>, w1: Seq<u32>, w2: Seq<u32>)
    requires
        w1.len() == w2.len(),
    ensures
        put_words(put_words(b, w1), w2) =~= put_words(b, w2),
{
}

/// For every key and every buffer of at least two full words, decryption undoes
/// encryption (trailing bytes that make no full word are left as they are by both).
pub proof fn lemma_decrypt_encrypt(key: Seq<u32>, b: Seq<u8>)
    requires
        b.len() >= 8,
    ensures
        decrypted(key, encrypted(key, b)) == b,
{
    let w = le_words(b);
    let c = rounds_for(w.len() as int) as nat;
    let ew = encrypt_words(w, key);
    lemma_enc_cycles_len(w, c, key);
    lemma_words_of_put(b, ew);
    lemma_cycles_inverse(w, c, key);
    lemma_put_put(b, ew, w);
    lemma_put_of_words(b);
}


proof fn lemma_add32_mod(a: u32, b: u32)
    ensures
        add32(a, b) as int == (a as int + b as int) % 0x1_0000_0000,
{
    let m: int = 0x1_0000_0000;
    if a as int + b as int >= m {
        lemma_mod_sub_multiples_vanish(a as int + b as int, m);
        lemma_small_mod((a as int + b as int - m) as nat, m as nat);
        assert((a as int + b as int - m) % m == (a as int + b as int) % m) by {
            lemma_mod_add_multiples_vanish(a as int + b as int - m, m);
        }
    } else {
        lemma_small_mod((a as int + b as int) as nat, m as nat);
    }
}

proof fn lemma_cycle_sum(c: nat)
    ensures
        cycle_sum(c) as int == (c * DELTA as int) % 0x1_0000_0000,
    decreases c,
{
    let m: int = 0x1_0000_0000;
    if c == 0 {
        lemma_small_mod(0, m as nat);
    } else {
        lemma_cycle_sum((c - 1) as nat);
        lemma_add32_mod(cycle_sum((c - 1) as nat), DELTA);
        lemma_add_mod_noop(((c - 1) * DELTA as int), DELTA as int, m);
        lemma_small_mod(DELTA as nat, m as nat);
        assert((c - 1) * DELTA as int + DELTA as int == c * DELTA as int) by (nonlinear_arith);
    }
}

proof fn lemma_mod_prev(r: int, n: int)
    requires
        0 <= r < n,
    ensures
        (r + n - 1) % n == (if r == 0 { n - 1 } else { r - 1 }),
        (r + 1 + n - 1) % n == r,
        (r + 1) % n == (if r + 1 == n { 0 } else { r + 1 }),
{
    if r == 0 {
        lemma_small_mod((n - 1) as nat, n as nat);
    } else {
        lemma_mod_add_multiples_vanish(r - 1, n);
        lemma_small_mod((r - 1) as nat, n as nat);
    }
    lemma_mod_add_multiples_vanish(r, n);
    lemma_small_mod(r as nat, n as nat);
    if r + 1 == n {
        lemma_mod_self_0(n);
    } else {
        lemma_small_mod((r + 1) as nat, n as nat);
    }
}

proof fn lemma_quarter(len: int)
    requires
        len >= 0,
    ensures
        4 * (len / 4) <= len,
        len / 4 <= len,
{
    lemma_fundamental_div_mod(len, 4);
    lemma_mod_pos_bound(len, 4);
}

fn cipher_mix(y: u32, z: u32, sum: u32, k: u32) -> (r: u32)
    ensures
        r == mix(y, z, sum, k),
{
    (((z >> 5u32) ^ (y << 2u32)).wrapping_add((y >> 3u32) ^ (z << 4u32))) ^ ((sum ^ y).wrapping_add(
        k ^ z,
    ))
}

fn key_slot(r: usize, sum: u32) -> (i: usize)
    ensures
        i == key_index(r as int, sum),
        i < 4,
{
    let i = (r ^ ((sum >> 2u32) as usize)) & 3usize;
    assert((r ^ ((sum >> 2u32) as usize)) & 3usize < 4usize) by (bit_vector);
    i
}

fn load_words(b: &[u8]) -> (w: Vec<u32>)
    ensures
        w@ == le_words(b@),
{
    let len = b.len();
    let n = len / 4;
    proof {
        lemma_quarter(len as int);
    }
    let mut w: Vec<u32> = Vec::new();
    let mut i: usize = 0;
    while i < n
        invariant
            n == b@.len() / 4,
            4 * n <= b@.len(),
            len == b@.len(),
            i <= n,
            w@ == le_words(b@).subrange(0, i as int),
        decreases n - i,
    {
        w.push(read_le_u32(b, 4 * i));
        i = i + 1;
        assert(w@ =~= le_words(b@).subrange(0, i as int));
    }
    assert(w@ =~= le_words(b@));
    w
}

fn store_words(b: &mut [u8], w: &Vec<u32>)
    requires
        w@.len() == old(b)@.len() / 4,
    ensures
        final(b)@ == put_words(old(b)@, w@),
{
    let n = w.len();
    let len = b.len();
    proof {
        lemma_quarter(len as int);
    }
    let lim = 4 * n;
    let mut i: usize = 0;
    while i < lim
        invariant
            n == w@.len(),
            4 * n <= b@.len(),
            lim == 4 * n,
            b@.len() == old(b)@.len(),
            i <= 4 * n,
            forall|j: int|
                0 <= j < b@.len() ==> #[trigger] b@[j] == if j < i {
                    put_words(old(b)@, w@)[j]
                } else {
                    old(b)@[j]
                },
        decreases lim - i,
    {
        b[i] = word_byte(w[i / 4], (i % 4) as u32);
        i = i + 1;
    }
    assert(b@ =~= put_words(old(b)@, w@));
}

fn encrypt_words_in_place(key: &[u32], v: &mut Vec<u32>)
    requires
        key@.len() == 4,
        old(v)@.len() >= 1,
    ensures
        final(v)@ == encrypt_words(old(v)@, key@),
        final(v)@.len() == old(v)@.len(),
{
    let ghost w0 = v@;
    let n = v.len();
    let rounds = 6 + 52 / n;
    let mut sum: u32 = 0;
    let mut z = v[n - 1];
    let mut c: usize = 0;
    while c < rounds
        invariant
            n == v@.len(),
            n == w0.len(),
            n >= 1,
            rounds == rounds_for(n as int),
            key@.len() == 4,
            c <= rounds,
            v@ == enc_cycles(w0, c as nat, key@),
            sum == cycle_sum(c as nat),
            z == v@[n - 1],
        decreases rounds - c,
    {
        sum = sum.wrapping_add(DELTA);
        let ghost start = v@;
        let mut r: usize = 0;
        proof {
            lemma_mod_prev(0, n as int);
        }
        while r < n
            invariant
                n == v@.len(),
                n >= 1,
                key@.len() == 4,
                r <= n,
                v@ == enc_positions(start, r as nat, sum, key@),
                start.len() == n,
                z == left_of(v@, r as int) || r == n,
                r == n ==> z == v@[n - 1],
            decreases n - r,
        {
            proof {
                lemma_mod_prev(r as int, n as int);
            }
            let y = v[(r + 1) % n];
            let k = key[key_slot(r, sum)];
            let m = cipher_mix(y, z, sum, k);
            let nv = v[r].wrapping_add(m);
            v.set(r, nv);
            z = nv;
            r = r + 1;
            proof {
                if r < n {
                    lemma_mod_prev(r as int, n as int);
                }
            }
        }
        c = c + 1;
    }
}

fn decrypt_words_in_place(key: &[u32], v: &mut Vec<u32>)
    requires
        key@.len() == 4,
        old(v)@.len() >= 1,
        old(v)@.len() <= usize::MAX / 2,
    ensures
        final(v)@ == decrypt_words(old(v)@, key@),
        final(v)@.len() == old(v)@.len(),
{
    let ghost w0 = v@;
    let n = v.len();
    let rounds = 6 + 52 / n;
    let mut sum = (rounds as u32).wrapping_mul(DELTA);
    proof {
        lemma_cycle_sum(rounds as nat);
    }
    let mut y = v[0];
    let mut c: usize = 0;
    while c < rounds
        invariant
            n == v@.len(),
            n == w0.len(),
            n >= 1,
            n <= usize::MAX / 2,
            rounds == rounds_for(n as int),
            key@.len() == 4,
            c <= rounds,
            dec_cycles(v@, (rounds - c) as nat, key@) == dec_cycles(w0, rounds as nat, key@),
            sum == cycle_sum((rounds - c) as nat),
            y == v@[0],
        decreases rounds - c,
    {
        let ghost start = v@;
        let mut r: usize = n;
        while r > 0
            invariant
                n == v@.len(),
                n >= 1,
                n <= usize::MAX / 2,
                key@.len() == 4,
                r <= n,
                dec_positions(v@, r as nat, sum, key@) == dec_positions(start, n as nat, sum, key@),
                y == v@[(r % n) as int],
            decreases r,
        {
            let i = r - 1;
            proof {
                lemma_mod_prev(i as int, n as int);
            }
            let z = v[(i + n - 1) % n];
            let k = key[key_slot(i, sum)];
            let m = cipher_mix(y, z, sum, k);
            let nv = v[i].wrapping_sub(m);
            v.set(i, nv);
            y = nv;
            r = i;
            proof {
                lemma_small_mod(r as nat, n as nat);
            }
        }
        proof {
            lemma_small_mod(0, n as nat);
        }
        sum = sum.wrapping_sub(DELTA);
        c = c + 1;
    }
}

/// The MD5 digest of a byte string.
pub uninterp spec fn md5_of(data: Seq<u8>) -> Seq<u8>;

/// Relies on md5::compute: the 16-byte MD5 digest of the given bytes.
#[verifier::external_body]
fn md5_digest(data: &[u8]) -> (r: Vec<u8>)
    ensures
        r@ == md5_of(data@),
        r@.len() == 16,
{
    md5::compute(data).0.to_vec()
}

/// The big-endian word at `d[4 * i..4 * i + 4]`.
pub open spec fn be_word(d: Seq<u8>, i: int) -> u32 {
    le_u32(d[4 * i + 3], d[4 * i + 2], d[4 * i + 1], d[4 * i])
}

/// The key schedule made from a 16-byte digest: four big-endian words.
pub open spec fn schedule_of(d: Seq<u8>) -> Seq<u32> {
    Seq::new(4, |i: int| be_word(d, i))
}

/// Splits a 16-byte digest into the four big-endian words of a key schedule.
pub fn key_from_digest(d: &[u8]) -> (r: Vec<u32>)
    requires
        d@.len() == 16,
    ensures
        r@ == schedule_of(d@),
        r@.len() == 4,
{
    let mut r: Vec<u32> = Vec::new();
    let mut i: usize = 0;
    while i < 4
        invariant
            d@.len() == 16,
            i <= 4,
            r@ == schedule_of(d@).subrange(0, i as int),
        decreases 4 - i,
    {
        let w = (d[4 * i + 3] as u32) | ((d[4 * i + 2] as u32) << 8u32) | ((d[4 * i + 1] as u32)
            << 16u32) | ((d[4 * i] as u32) << 24u32);
        r.push(w);
        i = i + 1;
        assert(r@ =~= schedule_of(d@).subrange(0, i as int));
    }
    assert(r@ =~= schedule_of(d@));
    r
}

/// The key schedule of a key string: the MD5 digest of its UTF-8 bytes, read as four
/// big-endian words.
pub fn to_key_array(key: &str) -> (r: Vec<u32>)
    ensures
        r@ == schedule_of(md5_of(key.spec_bytes())),
        r@.len() == 4,
{
    let d = md5_digest(key.as_bytes());
    key_from_digest(&d)
}

/// Encrypts the full 32-bit little-endian words of `block` in place; trailing bytes that
/// make no full word are left as they are.
pub fn encrypt(key: &[u32], block: &mut [u8])
    requires
        key@.len() == 4,
        old(block)@.len() >= 4,
    ensures
        final(block)@ == encrypted(key@, old(block)@),
{
    let mut w = load_words(block);
    encrypt_words_in_place(key, &mut w);
    store_words(block, &w);
}

/// Decrypts the full 32-bit little-endian words of `block` in place; trailing bytes that
/// make no full word are left as they are.
pub fn decrypt(key: &[u32], block: &mut [u8])
    requires
        key@.len() == 4,
        old(block)@.len() >= 4,
    ensures
        final(block)@ == decrypted(key@, old(block)@),
{
    let len = block.len();
    let mut w = load_words(block);
    proof {
        lemma_quarter(len as int);
    }
    decrypt_words_in_place(key, &mut w);
    store_words(block, &w);
}

} // verus!
