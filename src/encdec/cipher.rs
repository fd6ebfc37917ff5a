//! The keyed, position-dependent byte transform applied to each packet past its
//! first four bytes, and its inverse.
use vstd::prelude::*;
use crate::encdec::framing::{
    declared_size, packet_at, packet_size_at, spans, spans_from, tiles, walk_end, HEADER_LEN,
};

verus! {

/// Number of bytes in a key table.
pub const KEY_TABLE_LEN: usize = 512;

/// Offset within a packet of the first transformed byte; the size field, the
/// key seed and the hash before it are never transformed.
pub const FIRST_CIPHER_OFFSET: usize = 4;

/// Offset within a packet of its key seed.
pub const KEY_SEED_OFFSET: usize = 2;

/// The key byte that drives offset `j` of a packet whose key seed is `seed`:
/// the counter starts at `keys[2 * seed]` for offset 4 and grows by one per
/// offset; the key byte is `keys[2 * (counter mod 256) + 1]`.
pub open spec fn mapped_key(keys: Seq<u8>, seed: u8, j: int) -> u8 {
    keys[((keys[2 * seed] + (j - 4)) % 256) * 2 + 1]
}

/// The amount added to or taken from the byte at offset `j`, given its key byte
/// `m`: `m << 1`, `m >> 3`, `m << 2` or `m >> 5` by `j mod 4`, modulo 256.
pub open spec fn key_shift(m: u8, j: int) -> nat {
    if j % 4 == 0 {
        ((m * 2) % 256) as nat
    } else if j % 4 == 1 {
        (m / 8) as nat
    } else if j % 4 == 2 {
        ((m * 4) % 256) as nat
    } else {
        (m / 32) as nat
    }
}

/// Encryption adds at even offsets and subtracts at odd ones; decryption does
/// the opposite.
pub open spec fn adds_at(j: int, encrypting: bool) -> bool {
    (j % 2 == 0) == encrypting
}

/// `b` plus or minus `d`, modulo 256.
pub open spec fn shift_byte(b: u8, d: nat, add: bool) -> u8 {
    if add {
        ((b + d) % 256) as u8
    } else {
        ((b - d) % 256) as u8
    }
}

/// One packet `p` after the transform: its first four bytes as they were, each
/// later byte shifted by the amount its offset and the key table give.
pub open spec fn cipher_packet(keys: Seq<u8>, p: Seq<u8>, encrypting: bool) -> Seq<u8> {
    Seq::new(
        p.len(),
        |j: int|
            if j < 4 {
                p[j]
            } else {
                shift_byte(p[j], key_shift(mapped_key(keys, p[2], j), j), adds_at(j, encrypting))
            },
    )
}

/// The bytes of `s` from `at` on after the transform: each complete packet found
/// by the framing walk from `at` is transformed, and whatever follows the last
/// one is left as it is.
pub open spec fn cipher_from(keys: Seq<u8>, s: Seq<u8>, at: nat, encrypting: bool) -> Seq<u8>
    decreases s.len() - at,
{
    if packet_at(s, at as int) {
        let n = declared_size(s, at as int);
        cipher_packet(keys, s.subrange(at as int, (at + n) as int), encrypting) + cipher_from(
            keys,
            s,
            at + n,
            encrypting,
        )
    } else if at <= s.len() {
        s.subrange(at as int, s.len() as int)
    } else {
        seq![]
    }
}

/// The whole buffer `s` after the transform.
pub open spec fn cipher(keys: Seq<u8>, s: Seq<u8>, encrypting: bool) -> Seq<u8> {
    cipher_from(keys, s, 0, encrypting)
}

/// Both key table indices derived from a byte value, `b << 1` and
/// `(b << 1) + 1`, lie within a table of 512 bytes.
pub proof fn lemma_key_index_bounds(b: u8)
    ensures
        ((b as usize) << 1usize) == 2 * (b as usize),
        ((b as usize) << 1usize) < KEY_TABLE_LEN,
        ((b as usize) << 1usize) + 1 < KEY_TABLE_LEN,
{
    assert(((b as usize) << 1usize) == 2 * (b as usize)) by (bit_vector);
}

proof fn lemma_shift_amounts(m: u8)
    ensures
        (m << 1u8) == (m * 2) % 256,
        (m >> 3u8) == m / 8,
        (m << 2u8) == (m * 4) % 256,
        (m >> 5u8) == m / 32,
{
    assert((m << 1u8) == (m * 2) % 256) by (bit_vector);
    assert((m >> 3u8) == m / 8) by (bit_vector);
    assert((m << 2u8) == (m * 4) % 256) by (bit_vector);
    assert((m >> 5u8) == m / 32) by (bit_vector);
}

/// The shift amount that `key_shift` gives for key byte `m` at offset `j`.
fn shift_amount(m: u8, j: usize) -> (d: u8)
    ensures
        d as nat == key_shift(m, j as int),
{
    proof {
        lemma_shift_amounts(m);
    }
    let r = j % 4;
    if r == 0 {
        m << 1u8
    } else if r == 1 {
        m >> 3u8
    } else if r == 2 {
        m << 2u8
    } else {
        m >> 5u8
    }
}

/// Shifts one byte, as `cipher_packet` says of offset `j`.
fn shift_one(b: u8, m: u8, j: usize, encrypting: bool) -> (r: u8)
    ensures
        r == shift_byte(b, key_shift(m, j as int), adds_at(j as int, encrypting)),
{
    let d = shift_amount(m, j);
    if (j % 2 == 0) == encrypting {
        let r = b.wrapping_add(d);
        proof {
            if b + d > 255 {
                assert((b + d) % 256 == b + d - 256);
            } else {
                assert((b + d) % 256 == b + d);
            }
        }
        r
    } else {
        let r = b.wrapping_sub(d);
        proof {
            if b - d < 0 {
                assert((b - d) % 256 == b - d + 256);
            } else {
                assert((b - d) % 256 == b - d);
            }
        }
        r
    }
}

/// Transforms the packet at `[at, at + n)` of `raw` in place.
fn transform_packet(raw: &mut Vec<u8>, at: usize, n: usize, keys: &[u8], encrypting: bool)
    requires
        keys@.len() == KEY_TABLE_LEN,
        1 <= n <= 0xffff,
        at + n <= old(raw).len(),
        at + HEADER_LEN <= old(raw).len(),
    ensures
        final(raw)@ == old(raw)@.subrange(0, at as int) + cipher_packet(
            keys@,
            old(raw)@.subrange(at as int, at + n),
            encrypting,
        ) + old(raw)@.subrange(at + n, old(raw)@.len() as int),
{
    let ghost orig = raw@;
    let ghost p = orig.subrange(at as int, at + n);
    let seed = raw[at + KEY_SEED_OFFSET];
    proof {
        lemma_key_index_bounds(seed);
    }
    let mut counter: usize = keys[(seed as usize) << 1usize] as usize;
    let mut j: usize = FIRST_CIPHER_OFFSET;
    while j < n
        invariant
            keys@.len() == KEY_TABLE_LEN,
            1 <= n <= 0xffff,
            at + n <= orig.len(),
            at + HEADER_LEN <= orig.len(),
            orig.len() == raw.len(),
            p == orig.subrange(at as int, at + n),
            seed == orig[at + 2],
            4 <= j,
            j <= n || j == 4,
            counter == keys@[2 * seed] + (j - 4),
            raw@.len() == orig.len(),
            forall|i: int|
                0 <= i < raw@.len() && !(at + 4 <= i < at + j) ==> raw@[i] == orig[i],
            forall|i: int|
                at + 4 <= i < at + j ==> raw@[i] == #[trigger] cipher_packet(
                    keys@,
                    p,
                    encrypting,
                )[i - at],
        decreases n - j,
    {
        let low = (counter % 256) as u8;
        proof {
            lemma_key_index_bounds(low);
        }
        let m = keys[((low as usize) << 1usize) + 1];
        let b = raw[at + j];
        let r = shift_one(b, m, j, encrypting);
        raw[at + j] = r;
        proof {
            assert(p[2] == orig[at + 2]);
            assert(cipher_packet(keys@, p, encrypting)[j as int] == r);
        }
        j = j + 1;
        counter = counter + 1;
    }
    proof {
        let want = orig.subrange(0, at as int) + cipher_packet(keys@, p, encrypting)
            + orig.subrange(at + n, orig.len() as int);
        assert forall|i: int| 0 <= i < raw@.len() implies raw@[i] == want[i] by {
            if at <= i < at + 4 && i < at + n {
                assert(cipher_packet(keys@, p, encrypting)[i - at] == p[i - at]);
            }
        }
        assert(raw@ =~= want);
    }
}

/// Transforms every complete packet of `raw` in place, walking from its start.
fn transform(raw: &mut Vec<u8>, keys: &[u8], encrypting: bool)
    requires
        keys@.len() == KEY_TABLE_LEN,
    ensures
        final(raw)@ == cipher(keys@, old(raw)@, encrypting),
{
    let ghost orig = raw@;
    let mut at: usize = 0;
    while at < raw.len()
        invariant_except_break
            at < raw@.len() || !packet_at(orig, at as int),
        invariant
            keys@.len() == KEY_TABLE_LEN,
            raw@.len() == orig.len(),
            at <= orig.len(),
            raw@.subrange(at as int, orig.len() as int) == orig.subrange(at as int, orig.len() as int),
            raw@.subrange(0, at as int) + cipher_from(keys@, orig, at as nat, encrypting) == cipher(
                keys@,
                orig,
                encrypting,
            ),
        ensures
            raw@.len() == orig.len(),
            at <= orig.len(),
            !packet_at(orig, at as int),
            raw@.subrange(at as int, orig.len() as int) == orig.subrange(at as int, orig.len() as int),
            raw@.subrange(0, at as int) + cipher_from(keys@, orig, at as nat, encrypting) == cipher(
                keys@,
                orig,
                encrypting,
            ),
        decreases orig.len() - at,
    {
        proof {
            assert(raw@[at as int] == orig[at as int] && (at + 1 < orig.len() ==> raw@[at + 1] == orig[at + 1])) by {
                assert(raw@[at as int] == raw@.subrange(at as int, orig.len() as int)[0]);
                if at + 1 < orig.len() {
                    assert(raw@[at + 1] == raw@.subrange(at as int, orig.len() as int)[1]);
                }
            }
        }
        match packet_size_at(raw.as_slice(), at) {
            Some(n) => {
                let ghost before = raw@;
                transform_packet(raw, at, n, keys, encrypting);
                proof {
                    assert(before.subrange(at as int, at + n) =~= orig.subrange(at as int, at + n)) by {
                        assert forall|i: int| 0 <= i < n implies #[trigger] before.subrange(at as int, at + n)[i] == orig.subrange(at as int, at + n)[i] by {
                            assert(before[at + i] == before.subrange(at as int, orig.len() as int)[i]);
                            assert(orig[at + i] == orig.subrange(at as int, orig.len() as int)[i]);
                        }
                    }
                    let cp = cipher_packet(keys@, orig.subrange(at as int, at + n), encrypting);
                    assert(cipher_from(keys@, orig, at as nat, encrypting) == cp + cipher_from(keys@, orig, (at + n) as nat, encrypting));
                    assert(raw@.subrange(0, (at + n) as int) =~= before.subrange(0, at as int) + cp);
                    assert(raw@.subrange(0, at as int) + cipher_from(keys@, orig, at as nat, encrypting) =~= before.subrange(0, at as int) + cipher_from(keys@, orig, at as nat, encrypting));
                    assert(before.subrange(0, at as int) + cipher_from(keys@, orig, at as nat, encrypting) =~= raw@.subrange(0, (at + n) as int) + cipher_from(keys@, orig, (at + n) as nat, encrypting));
                    assert(raw@.subrange((at + n) as int, orig.len() as int) =~= orig.subrange((at + n) as int, orig.len() as int)) by {
                        assert forall|i: int| 0 <= i < orig.len() - (at + n) implies #[trigger] raw@.subrange((at + n) as int, orig.len() as int)[i] == orig.subrange((at + n) as int, orig.len() as int)[i] by {
                            assert(before[at + n + i] == before.subrange(at as int, orig.len() as int)[n + i]);
                        }
                    }
                }
                at = at + n;
            },
            None => {
                break;
            },
        }
    }
    proof {
        assert(cipher_from(keys@, orig, at as nat, encrypting) == orig.subrange(at as int, orig.len() as int));
        assert(raw@ =~= raw@.subrange(0, at as int) + raw@.subrange(at as int, orig.len() as int));
    }
}

/// Encrypts every complete packet of `raw_data` in place and returns a copy of
/// the result. A trailing fragment that holds no complete packet is left as it
/// is.
pub fn encrypt(raw_data: &mut Vec<u8>, keys: &[u8]) -> (r: Vec<u8>)
    requires
        keys@.len() == KEY_TABLE_LEN,
    ensures
        final(raw_data)@ == cipher(keys@, old(raw_data)@, true),
        r@ == final(raw_data)@,
{
    transform(raw_data, keys, true);
    let r = raw_data.clone();
    proof {
        assert(r@ =~= raw_data@);
    }
    r
}

/// Decrypts every complete packet of `raw_data` in place and returns a copy of
/// the result. A trailing fragment that holds no complete packet is left as it
/// is.
pub fn decrypt(raw_data: &mut Vec<u8>, keys: &[u8]) -> (r: Vec<u8>)
    requires
        keys@.len() == KEY_TABLE_LEN,
    ensures
        final(raw_data)@ == cipher(keys@, old(raw_data)@, false),
        r@ == final(raw_data)@,
{
    transform(raw_data, keys, false);
    let r = raw_data.clone();
    proof {
        assert(r@ =~= raw_data@);
    }
    r
}

/// Decrypts `raw_data` in place exactly as `decrypt` does; kept for callers of
/// that name.
pub fn decrypt_non_null(raw_data: &mut Vec<u8>, keys: &[u8]) -> (r: Vec<u8>)
    requires
        keys@.len() == KEY_TABLE_LEN,
    ensures
        final(raw_data)@ == cipher(keys@, old(raw_data)@, false),
        r@ == final(raw_data)@,
{
    decrypt(raw_data, keys)
}

/// Decrypts `raw_data` in place exactly as `decrypt` does; kept for callers of
/// that name.
pub fn decrypt_cursor(raw_data: &mut Vec<u8>, keys: &[u8]) -> (r: Vec<u8>)
    requires
        keys@.len() == KEY_TABLE_LEN,
    ensures
        final(raw_data)@ == cipher(keys@, old(raw_data)@, false),
        r@ == final(raw_data)@,
{
    decrypt(raw_data, keys)
}

proof fn lemma_shift_byte_inverse(b: u8, d: nat, add: bool)
    requires
        d < 256,
    ensures
        shift_byte(shift_byte(b, d, add), d, !add) == b,
{
    let bi = b as int;
    let di = d as int;
    if add {
        let c: int = if bi + di < 256 { bi + di } else { bi + di - 256 };
        assert((bi + di) % 256 == c);
        assert(shift_byte(b, d, add) as int == c);
        assert((c - di) % 256 == bi);
    } else {
        let c: int = if bi - di >= 0 { bi - di } else { bi - di + 256 };
        assert((bi - di) % 256 == c);
        assert(shift_byte(b, d, add) as int == c);
        assert((c + di) % 256 == bi);
    }
}

proof fn lemma_cipher_packet_inverse(keys: Seq<u8>, p: Seq<u8>, encrypting: bool)
    ensures
        cipher_packet(keys, cipher_packet(keys, p, encrypting), !encrypting) == p,
{
    let c = cipher_packet(keys, p, encrypting);
    let back = cipher_packet(keys, c, !encrypting);
    assert forall|j: int| 0 <= j < p.len() implies #[trigger] back[j] == p[j] by {
        if j >= 4 {
            assert(c[2] == p[2]);
            let m = mapped_key(keys, p[2], j);
            lemma_shift_byte_inverse(p[j], key_shift(m, j), adds_at(j, encrypting));
        }
    }
    assert(back =~= p);
}

/// The transform keeps the length of what it is given.
pub proof fn lemma_cipher_from_len(keys: Seq<u8>, s: Seq<u8>, at: nat, encrypting: bool)
    requires
        at <= s.len(),
    ensures
        cipher_from(keys, s, at, encrypting).len() == s.len() - at,
    decreases s.len() - at,
{
    if packet_at(s, at as int) {
        lemma_cipher_from_len(keys, s, at + declared_size(s, at as int), encrypting);
    }
}

/// The four bytes at `at` come out of the transform from `at` unchanged: they
/// are the start of a packet, or lie past a short packet at the start of the
/// next one, or lie after the walk's end.
proof fn lemma_cipher_from_head(keys: Seq<u8>, s: Seq<u8>, at: nat, i: int, encrypting: bool)
    requires
        0 <= i < 4,
        at + i < s.len(),
    ensures
        cipher_from(keys, s, at, encrypting)[i] == s[at + i],
    decreases s.len() - at,
{
    lemma_cipher_from_len(keys, s, at, encrypting);
    if packet_at(s, at as int) {
        let n = declared_size(s, at as int);
        let p = s.subrange(at as int, (at + n) as int);
        let cp = cipher_packet(keys, p, encrypting);
        let tail = cipher_from(keys, s, at + n, encrypting);
        assert(cipher_from(keys, s, at, encrypting) == cp + tail);
        if i >= n {
            lemma_cipher_from_head(keys, s, at + n, i - n, encrypting);
        }
    }
}

/// The transform from `at` on reads nothing before `at`.
proof fn lemma_cipher_from_local(keys: Seq<u8>, x: Seq<u8>, y: Seq<u8>, at: nat, encrypting: bool)
    requires
        at <= x.len(),
        x.len() == y.len(),
        x.subrange(at as int, x.len() as int) == y.subrange(at as int, y.len() as int),
    ensures
        cipher_from(keys, x, at, encrypting) == cipher_from(keys, y, at, encrypting),
    decreases x.len() - at,
{
    let len = x.len() as int;
    assert forall|i: int| at <= i < len implies x[i] == y[i] by {
        assert(x[i] == x.subrange(at as int, len)[i - at]);
        assert(y[i] == y.subrange(at as int, len)[i - at]);
    }
    if packet_at(x, at as int) {
        let n = declared_size(x, at as int);
        assert(x.subrange(at as int, (at + n) as int) =~= y.subrange(at as int, (at + n) as int));
        assert(x.subrange((at + n) as int, len) =~= y.subrange((at + n) as int, len));
        lemma_cipher_from_local(keys, x, y, at + n, encrypting);
    }
}

proof fn lemma_cipher_from_inverse(keys: Seq<u8>, s: Seq<u8>, at: nat, encrypting: bool)
    requires
        at <= s.len(),
    ensures
        cipher_from(
            keys,
            s.subrange(0, at as int) + cipher_from(keys, s, at, encrypting),
            at,
            !encrypting,
        ) == s.subrange(at as int, s.len() as int),
    decreases s.len() - at,
{
    let len = s.len() as int;
    let t = s.subrange(0, at as int) + cipher_from(keys, s, at, encrypting);
    lemma_cipher_from_len(keys, s, at, encrypting);
    if packet_at(s, at as int) {
        let n = declared_size(s, at as int);
        let p = s.subrange(at as int, (at + n) as int);
        let rest = cipher_from(keys, s, at + n, encrypting);
        lemma_cipher_from_len(keys, s, at + n, encrypting);
        lemma_cipher_from_head(keys, s, at, 0, encrypting);
        lemma_cipher_from_head(keys, s, at, 1, encrypting);
        assert(t[at as int] == s[at as int]);
        assert(t[at + 1int] == s[at + 1int]);
        assert(packet_at(t, at as int));
        assert(t.subrange(at as int, (at + n) as int) =~= cipher_packet(keys, p, encrypting));
        lemma_cipher_packet_inverse(keys, p, encrypting);
        let t2 = s.subrange(0, (at + n) as int) + rest;
        lemma_cipher_from_inverse(keys, s, at + n, encrypting);
        assert(t.subrange((at + n) as int, len) =~= t2.subrange((at + n) as int, len));
        lemma_cipher_from_local(keys, t, t2, at + n, !encrypting);
        assert(p + s.subrange((at + n) as int, len) =~= s.subrange(at as int, len));
    } else {
        assert(t =~= s);
    }
}

/// Decrypting what encryption made gives back the buffer, and encrypting what
/// decryption made does too, for every buffer and every key table.
pub proof fn lemma_round_trip(keys: Seq<u8>, s: Seq<u8>)
    ensures
        cipher(keys, cipher(keys, s, true), false) == s,
        cipher(keys, cipher(keys, s, false), true) == s,
{
    lemma_cipher_from_inverse(keys, s, 0, true);
    lemma_cipher_from_inverse(keys, s, 0, false);
    assert(s.subrange(0, 0) + cipher(keys, s, true) =~= cipher(keys, s, true));
    assert(s.subrange(0, 0) + cipher(keys, s, false) =~= cipher(keys, s, false));
    assert(s.subrange(0, s.len() as int) =~= s);
}

proof fn lemma_spans_from_start(s: Seq<u8>, at: nat, k: int)
    requires
        0 <= k < spans_from(s, at).len(),
    ensures
        at <= spans_from(s, at)[k].0,
        spans_from(s, at)[k].0 + spans_from(s, at)[k].1 <= s.len(),
        1 <= spans_from(s, at)[k].1,
        k > 0 ==> at + declared_size(s, at as int) <= spans_from(s, at)[k].0,
    decreases s.len() - at,
{
    let n = declared_size(s, at as int);
    if k > 0 {
        lemma_spans_from_start(s, at + n, k - 1);
    }
}

proof fn lemma_header_bytes_from(keys: Seq<u8>, s: Seq<u8>, at: nat, encrypting: bool)
    requires
        at <= s.len(),
    ensures
        forall|k: int, i: int|
            0 <= k < spans_from(s, at).len() && 0 <= i < 4 && spans_from(s, at)[k].0 + i < s.len()
                ==> #[trigger] cipher_from(keys, s, at, encrypting)[spans_from(s, at)[k].0 - at + i]
                == s[#[trigger] spans_from(s, at)[k].0 + i],
    decreases s.len() - at,
{
    if packet_at(s, at as int) {
        let n = declared_size(s, at as int);
        let p = s.subrange(at as int, (at + n) as int);
        let cp = cipher_packet(keys, p, encrypting);
        let c = cipher_from(keys, s, at, encrypting);
        let tail = cipher_from(keys, s, at + n, encrypting);
        let sp = spans_from(s, at);
        let sp_tail = spans_from(s, at + n);
        lemma_header_bytes_from(keys, s, at + n, encrypting);
        lemma_cipher_from_len(keys, s, at + n, encrypting);
        assert(c == cp + tail);
        assert(cp.len() == n);
        assert forall|k: int, i: int|
            0 <= k < sp.len() && 0 <= i < 4 && sp[k].0 + i < s.len() implies #[trigger] c[sp[k].0
            - at + i] == s[#[trigger] sp[k].0 + i] by {
            if k == 0 {
                lemma_cipher_from_head(keys, s, at, i, encrypting);
            } else {
                assert(sp[k] == sp_tail[k - 1]);
                lemma_spans_from_start(s, at, k);
                assert(c[sp[k].0 - at + i] == tail[sp_tail[k - 1].0 - (at + n) + i]);
            }
        }
    }
}

/// For every packet the walk finds, its first four bytes (size field, key seed
/// and hash), as far as the buffer holds them, are the same after the transform
/// as before, in either direction; the transform keeps the buffer's length.
pub proof fn lemma_header_bytes_kept(keys: Seq<u8>, s: Seq<u8>, encrypting: bool)
    ensures
        cipher(keys, s, encrypting).len() == s.len(),
        forall|k: int, i: int|
            0 <= k < spans(s).len() && 0 <= i < 4 && spans(s)[k].0 + i < s.len()
                ==> #[trigger] cipher(keys, s, encrypting)[spans(s)[k].0 + i] == s[#[trigger] spans(
                s,
            )[k].0 + i],
{
    lemma_cipher_from_len(keys, s, 0, encrypting);
    lemma_header_bytes_from(keys, s, 0, encrypting);
    assert forall|k: int, i: int|
        0 <= k < spans(s).len() && 0 <= i < 4 && spans(s)[k].0 + i < s.len() implies #[trigger] cipher(
        keys,
        s,
        encrypting,
    )[spans(s)[k].0 + i] == s[#[trigger] spans(s)[k].0 + i] by {
        let st = spans_from(s, 0)[k].0;
        assert(st - 0 + i == st + i);
        assert(cipher_from(keys, s, 0, encrypting)[st - 0 + i] == s[st + i]);
    }
}

proof fn lemma_spans_kept_from(keys: Seq<u8>, s: Seq<u8>, x: Seq<u8>, at: nat, encrypting: bool)
    requires
        at <= s.len(),
        x.len() == s.len(),
        x.subrange(at as int, x.len() as int) == cipher_from(keys, s, at, encrypting),
    ensures
        spans_from(x, at) == spans_from(s, at),
    decreases s.len() - at,
{
    let len = s.len() as int;
    lemma_cipher_from_len(keys, s, at, encrypting);
    if at + 2 <= len {
        lemma_cipher_from_head(keys, s, at, 0, encrypting);
        lemma_cipher_from_head(keys, s, at, 1, encrypting);
        assert(x[at as int] == x.subrange(at as int, len)[0]);
        assert(x[at + 1int] == x.subrange(at as int, len)[1]);
    }
    if packet_at(s, at as int) {
        let n = declared_size(s, at as int);
        assert(packet_at(x, at as int));
        lemma_cipher_from_len(keys, s, at + n, encrypting);
        assert(x.subrange((at + n) as int, len) =~= cipher_from(keys, s, at + n, encrypting)) by {
            assert(x.subrange((at + n) as int, len) =~= x.subrange(at as int, len).subrange(
                n as int,
                len - at,
            ));
        }
        lemma_spans_kept_from(keys, s, x, at + n, encrypting);
    } else {
        assert(!packet_at(x, at as int));
    }
}

/// Framing a buffer after the transform, in either direction, finds the same
/// packet spans as framing it before: the walk reads only size fields, which
/// the transform never touches.
pub proof fn lemma_transform_keeps_spans(keys: Seq<u8>, s: Seq<u8>, encrypting: bool)
    ensures
        spans(cipher(keys, s, encrypting)) == spans(s),
{
    let x = cipher(keys, s, encrypting);
    lemma_cipher_from_len(keys, s, 0, encrypting);
    assert(x.subrange(0, x.len() as int) =~= x);
    lemma_spans_kept_from(keys, s, x, 0, encrypting);
}

proof fn lemma_fragment_from(keys: Seq<u8>, a: Seq<u8>, t: Seq<u8>, at: nat, encrypting: bool)
    requires
        at <= a.len(),
        walk_end(a, at) == a.len(),
        !packet_at(t, 0),
    ensures
        cipher_from(keys, a + t, at, encrypting) == cipher_from(keys, a, at, encrypting) + t,
    decreases a.len() - at,
{
    let s = a + t;
    let len = a.len() as int;
    if packet_at(a, at as int) {
        let n = declared_size(a, at as int);
        assert(s[at as int] == a[at as int] && s[at + 1int] == a[at + 1int]);
        assert(packet_at(s, at as int));
        assert(s.subrange(at as int, (at + n) as int) =~= a.subrange(at as int, (at + n) as int));
        lemma_fragment_from(keys, a, t, at + n, encrypting);
    } else {
        assert(at == len);
        if t.len() >= 2 {
            assert(s[len] == t[0] && s[len + 1] == t[1]);
        }
        assert(!packet_at(s, len));
        assert(s.subrange(len, s.len() as int) =~= t);
        assert(a.subrange(len, len) =~= seq![]);
        assert(seq![] + t =~= t);
    }
}

/// A buffer made of packets that tile it, followed by a fragment where no
/// complete packet starts, is transformed as those packets would be on their
/// own, and the fragment comes out unchanged.
pub proof fn lemma_truncation_tolerance(keys: Seq<u8>, a: Seq<u8>, t: Seq<u8>, encrypting: bool)
    requires
        tiles(a),
        !packet_at(t, 0),
    ensures
        cipher(keys, a + t, encrypting) == cipher(keys, a, encrypting) + t,
{
    lemma_fragment_from(keys, a, t, 0, encrypting);
}

} // verus!
