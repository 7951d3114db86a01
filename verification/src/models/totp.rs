//! TOTP (RFC 6238, SHA-1, 30 s step, 6 digits) and base32 decoding of the
//! secret. SHA-1 (RFC 3174) and HMAC-SHA1 (RFC 2104) are implemented here
//! and proved against their definitions.

use vstd::prelude::*;
use vstd::arithmetic::power2::pow2;

use crate::text::{chars_of, owned, push_char};

verus! {

/// The five chaining words of SHA-1.
pub type Words5 = (u32, u32, u32, u32, u32);

/// Rotation to the left by `n` bits, `0 < n < 32`.
pub open spec fn rotl(x: u32, n: u32) -> u32 {
    (x << n) | (x >> ((32 - n) as u32))
}

/// Addition modulo 2^32.
pub open spec fn wadd(x: u32, y: u32) -> u32 {
    vstd::wrapping::u32_specs::wrapping_add(x, y)
}

/// The big-endian 32-bit word `i` of a block.
pub open spec fn be_word(b: Seq<u8>, i: int) -> u32 {
    ((b[4 * i] as u32) << 24u32) | ((b[4 * i + 1] as u32) << 16u32) | ((b[4 * i + 2] as u32)
        << 8u32) | (b[4 * i + 3] as u32)
}

/// The message schedule W_t of a 64-byte block.
pub open spec fn sched(block: Seq<u8>, t: nat) -> u32
    decreases t,
{
    if t < 16 {
        be_word(block, t as int)
    } else {
        rotl(
            sched(block, (t - 3) as nat) ^ sched(block, (t - 8) as nat) ^ sched(
                block,
                (t - 14) as nat,
            ) ^ sched(block, (t - 16) as nat),
            1,
        )
    }
}

/// The round function f_t and the constant K_t.
pub open spec fn round_fk(t: nat, b: u32, c: u32, d: u32) -> (u32, u32) {
    if t <= 19 {
        ((b & c) | (!b & d), 0x5A827999u32)
    } else if t <= 39 {
        (b ^ c ^ d, 0x6ED9EBA1u32)
    } else if t <= 59 {
        ((b & c) | (b & d) | (c & d), 0x8F1BBCDCu32)
    } else {
        (b ^ c ^ d, 0xCA62C1D6u32)
    }
}

/// The working variables (A, B, C, D, E) after the first `t` rounds on a block.
pub open spec fn rounds(h: Words5, block: Seq<u8>, t: nat) -> Words5
    decreases t,
{
    if t == 0 {
        h
    } else {
        let (a, b, c, d, e) = rounds(h, block, (t - 1) as nat);
        let (f, k) = round_fk((t - 1) as nat, b, c, d);
        let temp = wadd(
            wadd(wadd(wadd(rotl(a, 5), f), e), k),
            sched(block, (t - 1) as nat),
        );
        (temp, a, rotl(b, 30), c, d)
    }
}

/// The compression function: 80 rounds added to the chaining value.
pub open spec fn compress(h: Words5, block: Seq<u8>) -> Words5 {
    let r = rounds(h, block, 80);
    (wadd(h.0, r.0), wadd(h.1, r.1), wadd(h.2, r.2), wadd(h.3, r.3), wadd(h.4, r.4))
}

/// The initial chaining value H0..H4.
pub open spec fn sha1_init() -> Words5 {
    (0x67452301u32, 0xEFCDAB89u32, 0x98BADCFEu32, 0x10325476u32, 0xC3D2E1F0u32)
}

/// Block `n` (64 bytes) of a padded message.
pub open spec fn block_of(m: Seq<u8>, n: nat) -> Seq<u8> {
    m.subrange(64 * n as int, 64 * n as int + 64)
}

/// The chaining value after the first `n` blocks of a padded message.
pub open spec fn hash_blocks(m: Seq<u8>, n: nat) -> Words5
    decreases n,
{
    if n == 0 {
        sha1_init()
    } else {
        compress(hash_blocks(m, (n - 1) as nat), block_of(m, (n - 1) as nat))
    }
}

/// The big-endian bytes of a 64-bit integer.
pub open spec fn be_u64_bytes(x: u64) -> Seq<u8> {
    Seq::new(8, |i: int| (x >> ((56 - 8 * i) as u64)) as u8)
}

/// Number of zero bytes that padding inserts after the 0x80 byte.
pub open spec fn pad_zeros(len: nat) -> nat {
    ((119 - (len % 64)) % 64) as nat
}

/// The padded message: data, 0x80, zeros up to 56 mod 64, the bit length.
pub open spec fn sha1_pad(data: Seq<u8>) -> Seq<u8> {
    data + seq![0x80u8] + Seq::new(pad_zeros(data.len()), |i: int| 0u8) + be_u64_bytes(
        (data.len() * 8) as u64,
    )
}

/// Word `j` (0..5) of a chaining value.
pub open spec fn word_at(h: Words5, j: int) -> u32 {
    if j == 0 {
        h.0
    } else if j == 1 {
        h.1
    } else if j == 2 {
        h.2
    } else if j == 3 {
        h.3
    } else {
        h.4
    }
}

/// The 20 big-endian digest bytes of a chaining value.
pub open spec fn digest_bytes(h: Words5) -> Seq<u8> {
    Seq::new(20, |i: int| (word_at(h, i / 4) >> ((24 - 8 * (i % 4)) as u32)) as u8)
}

/// SHA-1 of a byte string (RFC 3174).
pub open spec fn sha1_spec(data: Seq<u8>) -> Seq<u8> {
    let m = sha1_pad(data);
    digest_bytes(hash_blocks(m, m.len() / 64))
}

fn rotl_exec(x: u32, n: u32) -> (r: u32)
    requires
        0 < n < 32,
    ensures
        r == rotl(x, n),
{
    (x << n) | (x >> (32 - n))
}

fn sha1_padded(data: &[u8]) -> (m: Vec<u8>)
    requires
        data@.len() * 8 <= u64::MAX,
    ensures
        m@ == sha1_pad(data@),
        m@.len() % 64 == 0,
{
    let mut m: Vec<u8> = Vec::new();
    let n = data.len();
    let mut i: usize = 0;
    while i < n
        invariant
            n == data@.len(),
            i <= n,
            m@ == data@.subrange(0, i as int),
        decreases n - i,
    {
        m.push(data[i]);
        i = i + 1;
    }
    assert(m@ == data@);
    let bit_len: u64 = (n as u64) * 8;
    m.push(0x80u8);
    let zeros: usize = (119 - n % 64) % 64;
    let mut z: usize = 0;
    while z < zeros
        invariant
            zeros == pad_zeros(data@.len()),
            z <= zeros,
            m@ == data@ + seq![0x80u8] + Seq::new(z as nat, |i: int| 0u8),
        decreases zeros - z,
    {
        m.push(0u8);
        z = z + 1;
        assert(m@ == data@ + seq![0x80u8] + Seq::new(z as nat, |i: int| 0u8));
    }
    let ghost prefix = m@;
    let mut k: u64 = 0;
    while k < 8
        invariant
            k <= 8,
            bit_len == (data@.len() * 8) as u64,
            m@ == prefix + be_u64_bytes(bit_len).subrange(0, k as int),
        decreases 8 - k,
    {
        m.push((bit_len >> (56 - 8 * k)) as u8);
        k = k + 1;
        assert(m@ == prefix + be_u64_bytes(bit_len).subrange(0, k as int));
    }
    assert(be_u64_bytes(bit_len).subrange(0, 8) == be_u64_bytes(bit_len));
    assert(m@.len() == n + 1 + zeros + 8);
    m
}

fn be_word_at(m: &Vec<u8>, base: usize, i: usize) -> (w: u32)
    requires
        base + 64 <= m@.len(),
        i < 16,
    ensures
        w == be_word(m@.subrange(base as int, base + 64), i as int),
{
    let ghost b = m@.subrange(base as int, base + 64);
    let len = m.len();
    assert(m@[base + 4 * i] == b[4 * i as int]);
    assert(m@[base + 4 * i + 1] == b[4 * i + 1]);
    assert(m@[base + 4 * i + 2] == b[4 * i + 2]);
    assert(m@[base + 4 * i + 3] == b[4 * i + 3]);
    ((m[base + 4 * i] as u32) << 24u32) | ((m[base + 4 * i + 1] as u32) << 16u32) | ((m[base + 4
        * i + 2] as u32) << 8u32) | (m[base + 4 * i + 3] as u32)
}

fn compress_exec(h: Words5, m: &Vec<u8>, base: usize) -> (r: Words5)
    requires
        base + 64 <= m@.len(),
    ensures
        r == compress(h, m@.subrange(base as int, base + 64)),
{
    let ghost blk = m@.subrange(base as int, base + 64);
    let mut w: Vec<u32> = Vec::new();
    let mut t: usize = 0;
    while t < 80
        invariant
            base + 64 <= m@.len(),
            blk == m@.subrange(base as int, base + 64),
            t <= 80,
            w@.len() == t,
            forall|j: int| 0 <= j < t ==> w@[j] == sched(blk, j as nat),
        decreases 80 - t,
    {
        if t < 16 {
            let x = be_word_at(m, base, t);
            w.push(x);
        } else {
            let x = rotl_exec(w[t - 3] ^ w[t - 8] ^ w[t - 14] ^ w[t - 16], 1);
            w.push(x);
        }
        t = t + 1;
    }
    let (mut a, mut b, mut c, mut d, mut e) = h;
    let mut i: usize = 0;
    while i < 80
        invariant
            i <= 80,
            w@.len() == 80,
            forall|j: int| 0 <= j < 80 ==> w@[j] == sched(blk, j as nat),
            (a, b, c, d, e) == rounds(h, blk, i as nat),
        decreases 80 - i,
    {
        let (f, k) = if i <= 19 {
            ((b & c) | (!b & d), 0x5A827999u32)
        } else if i <= 39 {
            (b ^ c ^ d, 0x6ED9EBA1u32)
        } else if i <= 59 {
            ((b & c) | (b & d) | (c & d), 0x8F1BBCDCu32)
        } else {
            (b ^ c ^ d, 0xCA62C1D6u32)
        };
        let temp = rotl_exec(a, 5).wrapping_add(f).wrapping_add(e).wrapping_add(k).wrapping_add(
            w[i],
        );
        e = d;
        d = c;
        c = rotl_exec(b, 30);
        b = a;
        a = temp;
        i = i + 1;
    }
    (
        h.0.wrapping_add(a),
        h.1.wrapping_add(b),
        h.2.wrapping_add(c),
        h.3.wrapping_add(d),
        h.4.wrapping_add(e),
    )
}

/// SHA-1 (RFC 3174) of `data`.
pub fn sha1(data: &[u8]) -> (digest: [u8; 20])
    requires
        data@.len() * 8 <= u64::MAX,
    ensures
        digest@ == sha1_spec(data@),
{
    let m = sha1_padded(data);
    let mlen = m.len();
    let nblocks = mlen / 64;
    let mut h: Words5 = (0x67452301u32, 0xEFCDAB89u32, 0x98BADCFEu32, 0x10325476u32, 0xC3D2E1F0u32);
    let mut n: usize = 0;
    while n < nblocks
        invariant
            nblocks == m@.len() / 64,
            mlen == m@.len(),
            m@.len() % 64 == 0,
            n <= nblocks,
            h == hash_blocks(m@, n as nat),
        decreases nblocks - n,
    {
        assert(64 * n + 64 <= m@.len()) by (nonlinear_arith)
            requires
                n < nblocks,
                nblocks == m@.len() / 64,
        ;
        h = compress_exec(h, &m, 64 * n);
        n = n + 1;
    }
    let hs: [u32; 5] = [h.0, h.1, h.2, h.3, h.4];
    let mut out = [0u8; 20];
    let mut i: usize = 0;
    while i < 20
        invariant
            i <= 20,
            h == hash_blocks(m@, nblocks as nat),
            forall|j: int| 0 <= j < 5 ==> hs@[j] == word_at(h, j),
            forall|j: int| 0 <= j < i ==> out@[j] == digest_bytes(h)[j],
        decreases 20 - i,
    {
        let v = hs[i / 4];
        out[i] = #[verifier::truncate] ((v >> (24 - 8 * (i % 4)) as u32) as u8);
        i = i + 1;
    }
    assert(out@ == digest_bytes(h));
    out
}


/// The 64-byte HMAC key block: the key (hashed first when longer than a
/// block), padded with zeros.
pub open spec fn hmac_key_block(key: Seq<u8>) -> Seq<u8> {
    let k0 = if key.len() > 64 {
        sha1_spec(key)
    } else {
        key
    };
    k0 + Seq::new((64 - k0.len()) as nat, |i: int| 0u8)
}

/// Every byte of `s` xor-ed with `pad`.
pub open spec fn xor_all(s: Seq<u8>, pad: u8) -> Seq<u8> {
    Seq::new(s.len(), |i: int| s[i] ^ pad)
}

/// HMAC-SHA1 (RFC 2104) of `data` under `key`.
pub open spec fn hmac_sha1_spec(key: Seq<u8>, data: Seq<u8>) -> Seq<u8> {
    let kb = hmac_key_block(key);
    sha1_spec(xor_all(kb, 0x5c) + sha1_spec(xor_all(kb, 0x36) + data))
}

/// The HMAC key is normalised to one block: a key longer than a block
/// gives the same MACs as its SHA-1 digest, and a shorter key the same MACs
/// as the key padded with zeros to 64 bytes.
pub proof fn lemma_hmac_key_block(key: Seq<u8>, data: Seq<u8>)
    ensures
        key.len() > 64 ==> hmac_sha1_spec(key, data) == hmac_sha1_spec(sha1_spec(key), data),
        key.len() <= 64 ==> hmac_sha1_spec(key, data) == hmac_sha1_spec(
            key + Seq::new((64 - key.len()) as nat, |i: int| 0u8),
            data,
        ),
{
    if key.len() > 64 {
        assert(sha1_spec(key).len() == 20);
        assert(hmac_key_block(key) == hmac_key_block(sha1_spec(key)));
    } else {
        let padded = key + Seq::new((64 - key.len()) as nat, |i: int| 0u8);
        assert(padded.len() == 64);
        assert(hmac_key_block(padded) =~= padded);
        assert(hmac_key_block(key) =~= padded);
    }
}

/// HMAC-SHA1 of `data` under `key`.
pub fn hmac_sha1(key: &[u8], data: &[u8]) -> (mac: [u8; 20])
    requires
        key@.len() * 8 <= u64::MAX,
        (64 + data@.len()) * 8 <= u64::MAX,
    ensures
        mac@ == hmac_sha1_spec(key@, data@),
{
    let mut k: Vec<u8> = Vec::new();
    if key.len() > 64 {
        let d = sha1(key);
        let mut i: usize = 0;
        while i < 20
            invariant
                i <= 20,
                k@ == d@.subrange(0, i as int),
            decreases 20 - i,
        {
            k.push(d[i]);
            i = i + 1;
        }
    } else {
        let mut i: usize = 0;
        while i < key.len()
            invariant
                i <= key@.len(),
                k@ == key@.subrange(0, i as int),
            decreases key@.len() - i,
        {
            k.push(key[i]);
            i = i + 1;
        }
    }
    let ghost k0 = k@;
    assert(k0.len() <= 64);
    while k.len() < 64
        invariant
            k0.len() <= k@.len() <= 64,
            k@ == k0 + Seq::new((k@.len() - k0.len()) as nat, |i: int| 0u8),
        decreases 64 - k@.len(),
    {
        k.push(0u8);
        assert(k@ == k0 + Seq::new((k@.len() - k0.len()) as nat, |i: int| 0u8));
    }
    assert(k@ == hmac_key_block(key@));
    let mut ipad: Vec<u8> = Vec::new();
    let mut i: usize = 0;
    while i < 64
        invariant
            i <= 64,
            k@.len() == 64,
            ipad@ == xor_all(k@, 0x36).subrange(0, i as int),
        decreases 64 - i,
    {
        ipad.push(k[i] ^ 0x36u8);
        i = i + 1;
    }
    let mut j: usize = 0;
    while j < data.len()
        invariant
            j <= data@.len(),
            k@.len() == 64,
            ipad@ == xor_all(k@, 0x36) + data@.subrange(0, j as int),
        decreases data@.len() - j,
    {
        ipad.push(data[j]);
        j = j + 1;
    }
    assert(ipad@ == xor_all(k@, 0x36) + data@);
    let inner = sha1(ipad.as_slice());
    let mut opad: Vec<u8> = Vec::new();
    let mut i: usize = 0;
    while i < 64
        invariant
            i <= 64,
            k@.len() == 64,
            opad@ == xor_all(k@, 0x5c).subrange(0, i as int),
        decreases 64 - i,
    {
        opad.push(k[i] ^ 0x5cu8);
        i = i + 1;
    }
    let mut j: usize = 0;
    while j < 20
        invariant
            j <= 20,
            k@.len() == 64,
            opad@ == xor_all(k@, 0x5c) + inner@.subrange(0, j as int),
        decreases 20 - j,
    {
        opad.push(inner[j]);
        j = j + 1;
    }
    assert(opad@ == xor_all(k@, 0x5c) + inner@);
    sha1(opad.as_slice())
}

/// The value (0..32) of a base32 digit, upper or lower case (RFC 4648
/// alphabet `A-Z2-7`).
pub open spec fn base32_digit(c: char) -> Option<u32> {
    if 'A' <= c <= 'Z' {
        Some(((c as u32) - ('A' as u32)) as u32)
    } else if 'a' <= c <= 'z' {
        Some(((c as u32) - ('a' as u32)) as u32)
    } else if '2' <= c <= '7' {
        Some(((c as u32) - ('2' as u32) + 26) as u32)
    } else {
        None
    }
}

/// Characters that base32 decoding skips: padding `=`, space and tab.
pub open spec fn base32_ignored(c: char) -> bool {
    c == '=' || c == ' ' || c == '\t'
}

/// The decoder's state: a bit buffer, the number of pending bits, the bytes so far.
pub type Base32State = (u32, u32, Seq<u8>);

/// Feeds one 5-bit digit to the decoder; a byte is emitted whenever 8 bits
/// are pending.
pub open spec fn base32_feed(st: Base32State, v: u32) -> Base32State {
    let buf = (st.0 << 5u32) | v;
    let bits = st.1 + 5;
    if bits >= 8 {
        (buf, (bits - 8) as u32, st.2.push((buf >> ((bits - 8) as u32)) as u8))
    } else {
        (buf, bits as u32, st.2)
    }
}

/// Decoding of `s` from position `i` on: the bytes, or the first character
/// that is neither a digit nor ignored.
pub open spec fn base32_from(s: Seq<char>, i: nat, st: Base32State) -> Result<Seq<u8>, char>
    decreases s.len() - i,
{
    if i >= s.len() {
        Ok(st.2)
    } else if base32_ignored(s[i as int]) {
        base32_from(s, i + 1, st)
    } else {
        match base32_digit(s[i as int]) {
            Some(v) => base32_from(s, i + 1, base32_feed(st, v)),
            None => Err(s[i as int]),
        }
    }
}

/// Base32 decoding (RFC 4648, case-insensitive, `=` and blanks ignored,
/// trailing bits dropped).
pub open spec fn base32_decode_spec(s: Seq<char>) -> Result<Seq<u8>, char> {
    base32_from(s, 0, (0, 0, Seq::empty()))
}

/// The message of a base32 error on character `c`.
pub open spec fn base32_error(c: char) -> Seq<char> {
    "недопустимый символ base32: "@.push(c)
}

/// Decode base32 (RFC 4648; case does not matter, `=` and blanks are ignored).
pub fn base32_decode(s: &str) -> (r: Result<Vec<u8>, String>)
    ensures
        match base32_decode_spec(s@) {
            Ok(bytes) => r is Ok && r->Ok_0@ == bytes,
            Err(c) => r is Err && r->Err_0@ == base32_error(c),
        },
        r matches Ok(bytes) ==> bytes@.len() * 8 <= s@.len() * 5,
{
    let cs = chars_of(s);
    let mut out: Vec<u8> = Vec::new();
    let mut buf: u32 = 0;
    let mut bits: u32 = 0;
    let mut i: usize = 0;
    while i < cs.len()
        invariant
            i <= cs@.len(),
            cs@ == s@,
            bits < 8,
            out@.len() * 8 + bits <= 5 * i,
            base32_decode_spec(s@) == base32_from(cs@, i as nat, (buf, bits, out@)),
        decreases cs@.len() - i,
    {
        let c = cs[i];
        if c == '=' || c == ' ' || c == '\t' {
            i = i + 1;
            continue;
        }
        let v: u32 = if 'A' <= c && c <= 'Z' {
            (c as u32) - ('A' as u32)
        } else if 'a' <= c && c <= 'z' {
            (c as u32) - ('a' as u32)
        } else if '2' <= c && c <= '7' {
            (c as u32) - ('2' as u32) + 26
        } else {
            let mut msg = owned("недопустимый символ base32: ");
            push_char(&mut msg, c);
            return Err(msg);
        };
        buf = (buf << 5u32) | v;
        bits = bits + 5;
        if bits >= 8 {
            bits = bits - 8;
            out.push((buf >> bits) as u8);
        }
        i = i + 1;
    }
    Ok(out)
}


/// Bit `k` of a byte string, the most significant bit of each byte first;
/// zero past the end.
pub open spec fn bit_at(b: Seq<u8>, k: int) -> nat {
    if 0 <= k < 8 * b.len() {
        ((b[k / 8] >> ((7 - k % 8) as u8)) & 1u8) as nat
    } else {
        0
    }
}

/// The number that bits `a` (inclusive) to `c` (exclusive) of `b` spell.
pub open spec fn bits_value(b: Seq<u8>, a: int, c: int) -> nat
    decreases c - a,
{
    if c <= a {
        0
    } else {
        bits_value(b, a, c - 1) * 2 + bit_at(b, c - 1)
    }
}

/// The base32 character of a 5-bit value (RFC 4648 alphabet `A-Z2-7`).
pub open spec fn base32_char(v: nat) -> char {
    if v < 26 {
        ((('A' as u32) + v) as u32) as char
    } else {
        ((('2' as u32) + v - 26) as u32) as char
    }
}

/// The base32 encoding of bytes (RFC 4648): each group of five bits, the
/// last one filled up with zero bits, as one character; without padding.
pub open spec fn base32_encode(b: Seq<u8>) -> Seq<char> {
    Seq::new(((8 * b.len() + 4) / 5) as nat, |k: int| base32_char(bits_value(b, 5 * k, 5 * k + 5)))
}

proof fn lemma_bits_value_bound(b: Seq<u8>, a: int, c: int)
    requires
        a <= c,
    ensures
        bits_value(b, a, c) < pow2((c - a) as nat),
    decreases c - a,
{
    vstd::arithmetic::power2::lemma2_to64();
    if c > a {
        lemma_bits_value_bound(b, a, c - 1);
        vstd::arithmetic::power2::lemma_pow2_unfold((c - a) as nat);
        assert(pow2((c - a) as nat) == 2 * pow2((c - a - 1) as nat));
        assert(bit_at(b, c - 1) <= 1) by {
            if 0 <= c - 1 < 8 * b.len() {
                let x = b[(c - 1) / 8];
                let y = ((7 - (c - 1) % 8) as u8);
                assert((x >> y) & 1u8 <= 1u8) by (bit_vector);
            }
        }
    }
}

proof fn lemma_bits_value_split(b: Seq<u8>, a: int, m: int, c: int)
    requires
        a <= m <= c,
    ensures
        bits_value(b, a, c) == bits_value(b, a, m) * pow2((c - m) as nat) + bits_value(b, m, c),
    decreases c - m,
{
    if c == m {
        vstd::arithmetic::power2::lemma2_to64();
    } else {
        lemma_bits_value_split(b, a, m, c - 1);
        vstd::arithmetic::power2::lemma_pow2_unfold((c - m) as nat);
        let x = bits_value(b, a, m);
        let p = pow2((c - 1 - m) as nat);
        let y = bits_value(b, m, c - 1);
        let t = bit_at(b, c - 1);
        assert((x * p + y) * 2 + t == x * (2 * p) + (y * 2 + t)) by (nonlinear_arith);
    }
}

/// The eight bits of a byte spell the byte.
proof fn lemma_byte_bits(b: Seq<u8>, o: int)
    requires
        0 <= o < b.len(),
    ensures
        bits_value(b, 8 * o, 8 * o + 8) == b[o],
{
    let x = b[o];
    reveal_with_fuel(bits_value, 9);
    assert forall|j: int| 0 <= j < 8 implies #[trigger] bit_at(b, 8 * o + j) == ((x >> ((7 - j) as u8)) & 1u8) as nat by {
        assert((8 * o + j) / 8 == o);
        assert((8 * o + j) % 8 == j);
    }
    let b0 = bit_at(b, 8 * o);
    let b1 = bit_at(b, 8 * o + 1);
    let b2 = bit_at(b, 8 * o + 2);
    let b3 = bit_at(b, 8 * o + 3);
    let b4 = bit_at(b, 8 * o + 4);
    let b5 = bit_at(b, 8 * o + 5);
    let b6 = bit_at(b, 8 * o + 6);
    let b7 = bit_at(b, 8 * o + 7);
    assert(((((((((x >> 7u8) & 1u8) as u32 * 2 + ((x >> 6u8) & 1u8) as u32) * 2 + ((x >> 5u8) & 1u8) as u32)
        * 2 + ((x >> 4u8) & 1u8) as u32) * 2 + ((x >> 3u8) & 1u8) as u32) * 2 + ((x >> 2u8) & 1u8) as u32)
        * 2 + ((x >> 1u8) & 1u8) as u32) * 2 + ((x >> 0u8) & 1u8) as u32 == x as u32) by (bit_vector);
    assert(bits_value(b, 8 * o, 8 * o + 8) == (((((((b0 * 2 + b1) * 2 + b2) * 2 + b3) * 2 + b4) * 2 + b5) * 2
        + b6) * 2 + b7));
}

/// One digit fed to the decoder: the low `n + 5` bits of the new buffer
/// are the old low `n` bits followed by the digit; a byte taken out is the
/// top eight of them and leaves the rest.
proof fn lemma_feed_bits(buf: u32, v: u32, n: u32)
    requires
        v < 32,
        n < 8,
    ensures
        ((buf << 5u32) | v) as int % (pow2((n + 5) as nat) as int) == (buf as int % (pow2(n as nat) as int)) * 32 + v,
        n >= 3 ==> ((((buf << 5u32) | v) >> ((n - 3) as u32)) as u8) as int == (((buf << 5u32) | v) as int
            % (pow2((n + 5) as nat) as int)) / (pow2((n - 3) as nat) as int),
        n >= 3 ==> ((buf << 5u32) | v) as int % (pow2((n - 3) as nat) as int) == (((buf << 5u32) | v) as int % (pow2((n + 5) as nat) as int)) % (pow2((n - 3) as nat) as int),
{
    vstd::arithmetic::power2::lemma2_to64();
    let x = (buf << 5u32) | v;
    match n {
        0 => {
            assert(x % 32u32 == (buf % 1u32) * 32u32 + v) by (bit_vector)
                requires
                    x == (buf << 5u32) | v,
                    v < 32u32,
            ;
        },
        1 => {
            assert(x % 64u32 == (buf % 2u32) * 32u32 + v) by (bit_vector)
                requires
                    x == (buf << 5u32) | v,
                    v < 32u32,
            ;
        },
        2 => {
            assert(x % 128u32 == (buf % 4u32) * 32u32 + v) by (bit_vector)
                requires
                    x == (buf << 5u32) | v,
                    v < 32u32,
            ;
        },
        3 => {
            assert(x % 256u32 == (buf % 8u32) * 32u32 + v) by (bit_vector)
                requires
                    x == (buf << 5u32) | v,
                    v < 32u32,
            ;
            assert(((x >> 0u32) as u8) as u32 == (x % 256u32) / 1u32) by (bit_vector);
            assert(x % 1u32 == (x % 256u32) % 1u32) by (bit_vector);
        },
        4 => {
            assert(x % 512u32 == (buf % 16u32) * 32u32 + v) by (bit_vector)
                requires
                    x == (buf << 5u32) | v,
                    v < 32u32,
            ;
            assert(((x >> 1u32) as u8) as u32 == (x % 512u32) / 2u32) by (bit_vector);
            assert(x % 2u32 == (x % 512u32) % 2u32) by (bit_vector);
        },
        5 => {
            assert(x % 1024u32 == (buf % 32u32) * 32u32 + v) by (bit_vector)
                requires
                    x == (buf << 5u32) | v,
                    v < 32u32,
            ;
            assert(((x >> 2u32) as u8) as u32 == (x % 1024u32) / 4u32) by (bit_vector);
            assert(x % 4u32 == (x % 1024u32) % 4u32) by (bit_vector);
        },
        6 => {
            assert(x % 2048u32 == (buf % 64u32) * 32u32 + v) by (bit_vector)
                requires
                    x == (buf << 5u32) | v,
                    v < 32u32,
            ;
            assert(((x >> 3u32) as u8) as u32 == (x % 2048u32) / 8u32) by (bit_vector);
            assert(x % 8u32 == (x % 2048u32) % 8u32) by (bit_vector);
        },
        7 => {
            assert(x % 4096u32 == (buf % 128u32) * 32u32 + v) by (bit_vector)
                requires
                    x == (buf << 5u32) | v,
                    v < 32u32,
            ;
            assert(((x >> 4u32) as u8) as u32 == (x % 4096u32) / 16u32) by (bit_vector);
            assert(x % 16u32 == (x % 4096u32) % 16u32) by (bit_vector);
        },
        _ => {},
    }
}

/// The decoder's state after the first `k` characters of an encoding of
/// `b`: the whole bytes so far, and the bits of the next byte pending.
pub open spec fn decoded_upto(b: Seq<u8>, k: int, st: Base32State) -> bool {
    let o = (5 * k) / 8;
    &&& 0 <= o <= b.len()
    &&& st.2 == b.take(o)
    &&& st.1 == 5 * k - 8 * o
    &&& (st.0 as int) % (pow2(st.1 as nat) as int) == bits_value(b, 8 * o, 5 * k)
}

proof fn lemma_skip_ignored(s: Seq<char>, i: nat, st: Base32State)
    requires
        forall|j: int| i <= j < s.len() ==> base32_ignored(#[trigger] s[j]),
    ensures
        base32_from(s, i, st) == Ok::<Seq<u8>, char>(st.2),
    decreases s.len() - i,
{
    if i < s.len() {
        lemma_skip_ignored(s, i + 1, st);
    }
}

proof fn lemma_char_digit(v: nat)
    requires
        v < 32,
    ensures
        base32_digit(base32_char(v)) == Some(v as u32),
        !base32_ignored(base32_char(v)),
{
    let c = base32_char(v);
    if v < 26 {
        vstd::utf8::char_u32_cast(c, (('A' as u32) + v) as u32);
        assert(c as u32 == ('A' as u32) + v);
    } else {
        assert(c as u32 == ('2' as u32) + v - 26);
    }
}

proof fn lemma_decode_from(b: Seq<u8>, pad: Seq<char>, k: int, st: Base32State)
    requires
        forall|j: int| 0 <= j < pad.len() ==> base32_ignored(#[trigger] pad[j]),
        0 <= k <= (8 * b.len() + 4) / 5,
        decoded_upto(b, k, st),
    ensures
        base32_from(base32_encode(b) + pad, k as nat, st) == Ok::<Seq<u8>, char>(b),
    decreases (8 * b.len() + 4) / 5 - k,
{
    let e = base32_encode(b);
    let s = e + pad;
    let d = (8 * b.len() + 4) / 5;
    vstd::arithmetic::power2::lemma2_to64();
    if k == d {
        assert((5 * d) / 8 == b.len());
        assert(b.take(b.len() as int) =~= b);
        assert forall|j: int| k <= j < s.len() implies base32_ignored(#[trigger] s[j]) by {
            assert(s[j] == pad[j - e.len()]);
        }
        lemma_skip_ignored(s, k as nat, st);
    } else {
        let o = (5 * k) / 8;
        let n = st.1;
        let v = bits_value(b, 5 * k, 5 * k + 5);
        lemma_bits_value_bound(b, 5 * k, 5 * k + 5);
        assert(s[k] == base32_char(v));
        lemma_char_digit(v);
        let next = base32_feed(st, v as u32);
        assert(base32_from(s, k as nat, st) == base32_from(s, (k + 1) as nat, next));
        lemma_feed_bits(st.0, v as u32, n);
        lemma_bits_value_split(b, 8 * o, 5 * k, 5 * k + 5);
        let p1 = bits_value(b, 8 * o, 5 * k + 5);
        assert(((st.0 << 5u32) | (v as u32)) as int % (pow2((n + 5) as nat) as int) == p1);
        if n + 5 < 8 {
            assert((5 * (k + 1)) / 8 == o);
        } else {
            assert((5 * (k + 1)) / 8 == o + 1);
            assert((5 * (k + 1)) / 8 <= (5 * d) / 8);
            assert((5 * d) / 8 == b.len());
            lemma_bits_value_split(b, 8 * o, 8 * o + 8, 5 * k + 5);
            lemma_bits_value_bound(b, 8 * o + 8, 5 * k + 5);
            lemma_byte_bits(b, o);
            let m = pow2((n - 3) as nat) as int;
            let rest = bits_value(b, 8 * o + 8, 5 * k + 5) as int;
            vstd::arithmetic::div_mod::lemma_fundamental_div_mod_converse(p1 as int, m, b[o] as int, rest);
            assert(b.take(o).push(b[o]) =~= b.take(o + 1));
        }
        lemma_decode_from(b, pad, k + 1, next);
    }
}

/// Decoding the base32 encoding of bytes (RFC 4648), followed by any
/// padding `=`, spaces or tabs, gives the bytes back.
pub proof fn lemma_base32_round_trip(b: Seq<u8>, pad: Seq<char>)
    requires
        forall|j: int| 0 <= j < pad.len() ==> base32_ignored(#[trigger] pad[j]),
    ensures
        base32_decode_spec(base32_encode(b) + pad) == Ok::<Seq<u8>, char>(b),
{
    vstd::arithmetic::power2::lemma2_to64();
    assert(b.take(0) =~= Seq::<u8>::empty());
    assert(decoded_upto(b, 0, (0, 0, Seq::empty())));
    lemma_decode_from(b, pad, 0, (0, 0, Seq::empty()));
}

proof fn lemma_from_suffix(t: Seq<char>, a: nat, s: Seq<char>, b: nat, st: Base32State)
    requires
        a <= t.len(),
        b <= s.len(),
        t.skip(a as int) == s.skip(b as int),
    ensures
        base32_from(t, a, st) == base32_from(s, b, st),
    decreases t.len() - a,
{
    assert(t.skip(a as int).len() == t.len() - a);
    assert(s.skip(b as int).len() == s.len() - b);
    if a < t.len() {
        assert(t[a as int] == t.skip(a as int)[0]);
        assert(s[b as int] == s.skip(b as int)[0]);
        assert(t[a as int] == s[b as int]);
        assert(t.skip(a + 1int) =~= t.skip(a as int).drop_first());
        assert(s.skip(b + 1int) =~= s.skip(b as int).drop_first());
        match base32_digit(s[b as int]) {
            Some(v) => {
                lemma_from_suffix(t, a + 1, s, b + 1, base32_feed(st, v));
            },
            None => {},
        }
        lemma_from_suffix(t, a + 1, s, b + 1, st);
    }
}

proof fn lemma_insert_blank_from(s: Seq<char>, i: int, c: char, j: int, st: Base32State)
    requires
        base32_ignored(c),
        0 <= j <= i <= s.len(),
    ensures
        base32_from(s.insert(i, c), j as nat, st) == base32_from(s, j as nat, st),
    decreases i - j,
{
    let t = s.insert(i, c);
    if j == i {
        assert(t[i] == c);
        assert(t.skip(i + 1) =~= s.skip(i));
        lemma_from_suffix(t, (i + 1) as nat, s, i as nat, st);
    } else {
        assert(t[j] == s[j]);
        match base32_digit(s[j]) {
            Some(v) => {
                lemma_insert_blank_from(s, i, c, j + 1, base32_feed(st, v));
            },
            None => {},
        }
        lemma_insert_blank_from(s, i, c, j + 1, st);
    }
}

/// A padding `=`, space or tab put anywhere into a base32 text does not
/// change what it decodes to.
pub proof fn lemma_base32_blank_insert(s: Seq<char>, i: int, c: char)
    requires
        base32_ignored(c),
        0 <= i <= s.len(),
    ensures
        base32_decode_spec(s.insert(i, c)) == base32_decode_spec(s),
{
    lemma_insert_blank_from(s, i, c, 0, (0, 0, Seq::empty()));
}

/// `s` without the characters that base32 decoding skips (`=`, space, tab).
pub open spec fn strip_blanks(s: Seq<char>) -> Seq<char>
    decreases s.len(),
{
    if s.len() == 0 {
        s
    } else if base32_ignored(s[0]) {
        strip_blanks(s.drop_first())
    } else {
        seq![s[0]] + strip_blanks(s.drop_first())
    }
}

proof fn lemma_from_stripped(s: Seq<char>, st: Base32State)
    ensures
        base32_from(s, 0, st) == base32_from(strip_blanks(s), 0, st),
    decreases s.len(),
{
    if s.len() > 0 {
        let d = s.drop_first();
        assert(s.skip(1) =~= d.skip(0));
        lemma_from_suffix(s, 1, d, 0, st);
        let t = strip_blanks(s);
        if base32_ignored(s[0]) {
            lemma_from_stripped(d, st);
        } else {
            let rest = strip_blanks(d);
            assert(t[0] == s[0]);
            assert(t.skip(1) =~= rest.skip(0));
            lemma_from_suffix(t, 1, rest, 0, st);
            match base32_digit(s[0]) {
                Some(v) => {
                    lemma_from_suffix(s, 1, d, 0, base32_feed(st, v));
                    lemma_from_suffix(t, 1, rest, 0, base32_feed(st, v));
                    lemma_from_stripped(d, base32_feed(st, v));
                },
                None => {},
            }
        }
    }
}

/// Base32 decoding gives back the bytes that a text encodes (RFC 4648)
/// whatever its letter case, its `=` padding and the spaces and tabs put
/// anywhere in it: any text that, without those characters and in upper
/// case, is the encoding of `b`.
pub proof fn lemma_base32_decodes_encoding(b: Seq<u8>, s: Seq<char>)
    requires
        strip_blanks(s).map_values(|c: char| upper_ascii(c)) == base32_encode(b),
    ensures
        base32_decode_spec(s) == Ok::<Seq<u8>, char>(b),
{
    let t = strip_blanks(s);
    lemma_from_stripped(s, (0, 0, Seq::empty()));
    lemma_base32_round_trip(b, Seq::empty());
    assert(base32_encode(b) + Seq::<char>::empty() =~= base32_encode(b));
    lemma_base32_case_insensitive(t);
}

/// Dynamic truncation (RFC 4226): 31 bits read at the offset given by the
/// low nibble of the last byte.
pub open spec fn dynamic_truncate(mac: Seq<u8>) -> u32 {
    let off = (mac[19] & 0x0fu8) as int;
    (((mac[off] & 0x7fu8) as u32) << 24u32) | ((mac[off + 1] as u32) << 16u32) | ((mac[off
        + 2] as u32) << 8u32) | (mac[off + 3] as u32)
}

/// The six-digit HOTP value of `key` at `counter` (RFC 4226 with HMAC-SHA1).
pub open spec fn hotp_value(key: Seq<u8>, counter: u64) -> u32 {
    dynamic_truncate(hmac_sha1_spec(key, be_u64_bytes(counter))) % 1_000_000
}

/// 10^(5 - i): the weight of digit `i` of a six-digit number.
pub open spec fn place(i: int) -> u32 {
    if i == 0 {
        100000
    } else if i == 1 {
        10000
    } else if i == 2 {
        1000
    } else if i == 3 {
        100
    } else if i == 4 {
        10
    } else {
        1
    }
}

/// The decimal digit `d` (0..10) as a character.
pub open spec fn digit_char(d: u32) -> char {
    ((48 + d) as u8) as char
}

/// `n` (below one million) written with exactly six decimal digits.
pub open spec fn six_digits(n: u32) -> Seq<char> {
    Seq::new(6, |i: int| digit_char((n / place(i)) % 10))
}

/// The TOTP code for `key` at time step `counter`.
pub open spec fn totp_code(key: Seq<u8>, counter: u64) -> Seq<char> {
    six_digits(hotp_value(key, counter))
}

/// The message of the error on an empty secret.
pub open spec fn empty_secret_error() -> Seq<char> {
    "пустой TOTP-секрет"@
}

/// The TOTP code for a given counter.
pub fn totp_at(key: &[u8], counter: u64) -> (r: Result<String, String>)
    requires
        key@.len() * 8 <= u64::MAX,
    ensures
        key@.len() == 0 ==> r is Err && r->Err_0@ == empty_secret_error(),
        key@.len() > 0 ==> r is Ok && r->Ok_0@ == totp_code(key@, counter),
{
    if key.len() == 0 {
        return Err(owned("пустой TOTP-секрет"));
    }
    let mut cb: Vec<u8> = Vec::new();
    let mut k: u64 = 0;
    while k < 8
        invariant
            k <= 8,
            cb@ == be_u64_bytes(counter).subrange(0, k as int),
        decreases 8 - k,
    {
        cb.push(#[verifier::truncate] ((counter >> (56 - 8 * k)) as u8));
        k = k + 1;
    }
    assert(cb@ == be_u64_bytes(counter));
    let mac = hmac_sha1(key, cb.as_slice());
    let last = mac[19];
    assert(last & 0x0fu8 <= 15u8) by (bit_vector);
    let off = (last & 0x0fu8) as usize;
    let bin: u32 = (((mac[off] & 0x7fu8) as u32) << 24u32) | ((mac[off + 1] as u32) << 16u32)
        | ((mac[off + 2] as u32) << 8u32) | (mac[off + 3] as u32);
    let code = bin % 1_000_000;
    assert(code == hotp_value(key@, counter));
    let places: [u32; 6] = [100000, 10000, 1000, 100, 10, 1];
    let mut out = String::new();
    let mut i: usize = 0;
    while i < 6
        invariant
            i <= 6,
            forall|j: int| 0 <= j < 6 ==> places@[j] == place(j),
            out@ == six_digits(code).subrange(0, i as int),
        decreases 6 - i,
    {
        assert(place(i as int) > 0);
        let d = (code / places[i]) % 10;
        push_char(&mut out, ((48 + d) as u8) as char);
        i = i + 1;
    }
    assert(out@ == six_digits(code));
    Ok(out)
}

/// The TOTP time step in seconds.
pub open spec fn totp_step() -> u64 {
    30
}

/// `std::time::SystemTime`, a reading of the system clock.
#[verifier::external_type_specification]
#[verifier::external_body]
pub struct ExSystemTime(std::time::SystemTime);

/// `SystemTime::now`: the system clock's current reading. Nothing is stated
/// of it.
#[verifier::external_body]
fn clock_now() -> (t: std::time::SystemTime) {
    std::time::SystemTime::now()
}

/// `SystemTime::duration_since(UNIX_EPOCH)` of a reading, in whole seconds,
/// or the text of the error when the reading is before the epoch. Nothing is
/// stated of the number.
#[verifier::external_body]
fn secs_since_epoch(t: &std::time::SystemTime) -> (r: Result<u64, String>) {
    match t.duration_since(std::time::UNIX_EPOCH) {
        Ok(d) => Ok(d.as_secs()),
        Err(e) => Err(e.to_string()),
    }
}

/// The current UNIX time in whole seconds, or the text of the error when the
/// clock is before the epoch.
fn unix_time_now() -> (r: Result<u64, String>) {
    let t = clock_now();
    secs_since_epoch(&t)
}

/// The TOTP code of `key` at UNIX time `unix_secs` and the number of seconds
/// until it changes.
pub fn totp_at_time(key: &[u8], unix_secs: u64) -> (r: Result<(String, u64), String>)
    requires
        key@.len() * 8 <= u64::MAX,
    ensures
        key@.len() == 0 ==> r is Err && r->Err_0@ == empty_secret_error(),
        key@.len() > 0 ==> r is Ok && r->Ok_0.0@ == totp_code(key@, unix_secs / totp_step())
            && r->Ok_0.1 == totp_step() - unix_secs % totp_step(),
{
    let step: u64 = 30;
    let counter = unix_secs / step;
    let code = totp_at(key, counter)?;
    Ok((code, step - unix_secs % step))
}

/// What a TOTP code request gives for a base32 secret and a clock reading
/// (seconds since the UNIX epoch, or the clock's error text): the base32
/// error first, then the clock's error, then the empty-secret error, else
/// the code and the seconds until it changes.
pub open spec fn totp_from_clock_spec(secret: Seq<char>, clock: Result<u64, Seq<char>>) -> Result<
    (Seq<char>, u64),
    Seq<char>,
> {
    match base32_decode_spec(secret) {
        Err(c) => Err(base32_error(c)),
        Ok(key) => match clock {
            Err(m) => Err(m),
            Ok(t) => if key.len() == 0 {
                Err(empty_secret_error())
            } else {
                Ok((totp_code(key, t / totp_step()), (totp_step() - t % totp_step()) as u64))
            },
        },
    }
}

/// The value of a clock reading.
pub open spec fn clock_view(clock: Result<u64, String>) -> Result<u64, Seq<char>> {
    match clock {
        Ok(t) => Ok(t),
        Err(m) => Err(m@),
    }
}

/// The value of a TOTP result.
pub open spec fn totp_result_view(r: Result<(String, u64), String>) -> Result<(Seq<char>, u64), Seq<char>> {
    match r {
        Ok((code, left)) => Ok((code@, left)),
        Err(m) => Err(m@),
    }
}

/// The TOTP code of a base32 secret at a clock reading, and the number of
/// seconds until it changes.
pub fn totp_from_clock(secret_base32: &str, clock: Result<u64, String>) -> (r: Result<(String, u64), String>)
    requires
        secret_base32@.len() * 5 <= u64::MAX,
    ensures
        totp_result_view(r) == totp_from_clock_spec(secret_base32@, clock_view(clock)),
{
    let key = base32_decode(secret_base32)?;
    let secs = clock?;
    totp_at_time(key.as_slice(), secs)
}

/// The current TOTP code of a base32 secret and the number of seconds until
/// it changes. The clock is read after the secret is decoded.
pub fn totp_now(secret_base32: &str) -> (r: Result<(String, u64), String>)
    requires
        secret_base32@.len() * 5 <= u64::MAX,
    ensures
        exists|clock: Result<u64, Seq<char>>| totp_result_view(r) == totp_from_clock_spec(secret_base32@, clock),
        base32_decode_spec(secret_base32@) matches Err(c) ==> r is Err && r->Err_0@
            == base32_error(c),
        base32_decode_spec(secret_base32@) matches Ok(key) && key.len() == 0 ==> r is Err,
        r matches Ok((code, left)) ==> base32_decode_spec(secret_base32@) matches Ok(key) && (
        exists|t: u64|
            code@ == #[trigger] totp_code(key, t / totp_step()) && left == totp_step() - t % totp_step()),
{
    match base32_decode(secret_base32) {
        Err(m) => {
            assert(totp_result_view(Err(m)) == totp_from_clock_spec(secret_base32@, Ok(0)));
            Err(m)
        },
        Ok(_) => {
            let clock = unix_time_now();
            let ghost cv: Result<u64, Seq<char>> = clock_view(clock);
            let r = totp_from_clock(secret_base32, clock);
            assert(totp_result_view(r) == totp_from_clock_spec(secret_base32@, cv));
            r
        },
    }
}

/// Every TOTP code is six decimal digits.
pub proof fn lemma_totp_code_digits(key: Seq<u8>, counter: u64)
    ensures
        totp_code(key, counter).len() == 6,
        forall|i: int| 0 <= i < 6 ==> '0' <= #[trigger] totp_code(key, counter)[i] <= '9',
{
    let n = hotp_value(key, counter);
    assert forall|i: int| 0 <= i < 6 implies '0' <= #[trigger] totp_code(key, counter)[i] <= '9' by {
        let d = (n / place(i)) % 10;
        assert(place(i) > 0);
        assert(d < 10);
        assert(totp_code(key, counter)[i] == digit_char(d));
    }
}

/// ASCII upper case of one character, as base32 decoding sees it.
pub open spec fn upper_ascii(c: char) -> char {
    if 'a' <= c <= 'z' {
        ((c as u32) - 32) as char
    } else {
        c
    }
}

proof fn lemma_base32_upper_from(s: Seq<char>, i: nat, st: Base32State)
    ensures
        base32_from(s.map_values(|c: char| upper_ascii(c)), i, st) == (match base32_from(s, i, st) {
            Ok(b) => Ok(b),
            Err(c) => Err(upper_ascii(c)),
        }),
    decreases s.len() - i,
{
    let u = s.map_values(|c: char| upper_ascii(c));
    if i < s.len() {
        let c = s[i as int];
        assert(u[i as int] == upper_ascii(c));
        assert(base32_ignored(upper_ascii(c)) == base32_ignored(c));
        assert(base32_digit(upper_ascii(c)) == base32_digit(c));
        lemma_base32_upper_from(s, i + 1, st);
        match base32_digit(c) {
            Some(v) => {
                lemma_base32_upper_from(s, i + 1, base32_feed(st, v));
            },
            None => {},
        }
    }
}

/// Base32 decoding does not depend on the case of the letters: a text and
/// its upper-case form decode to the same bytes, and fail on the same
/// character (up to case).
pub proof fn lemma_base32_case_insensitive(s: Seq<char>)
    ensures
        base32_decode_spec(s.map_values(|c: char| upper_ascii(c))) == (match base32_decode_spec(s) {
            Ok(b) => Ok(b),
            Err(c) => Err(upper_ascii(c)),
        }),
{
    lemma_base32_upper_from(s, 0, (0, 0, Seq::empty()));
}

} // verus!
