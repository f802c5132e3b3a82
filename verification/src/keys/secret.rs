//! The secret key: the small secret vector, key generation, public-key
//! derivation and decryption.

use crate::b64::{b64_decode, b64_decoding, b64_encode, b64_encoding};
use crate::bytes::{i32_from_le_at, i32_le_bytes, ints_le_bytes, le_ints, push_i32_le, read_i32_le};
use crate::keys::{
    dot_prefix, lemma_add_range, lemma_dot_prefix_congruence, lemma_row_index_mod, modulus,
    spec_modulus, wrap_dot_prefix, MAX_CHR,
};
use crate::keys::public::{
    chunk_from_rows, encrypted_chunk_ok, row_sum_at, rows_ok, Public,
};
use crate::rng::{fresh_rng, random_range_i32};
use crate::text::{char_from_u32, push_char};
use crate::Error;
use vstd::prelude::*;

verus! {

/// A secret key: 16 small signed words (the secret vector), the working
/// modulus, the scaling factor `add = modulo / MAX_CHR`, and the dimension.
pub struct Secret {
    pub key: Vec<i32>,
    pub modulo: i32,
    pub add: i32,
    pub dim: i32,
}

impl Secret {
    /// What key generation establishes: 16 entries in `[-4096, 4096)`, the
    /// modulus in `[11120640, 111206400)`, and `add`/`dim` consistent.
    pub open spec fn wf(self) -> bool {
        &&& self.key@.len() == 16
        &&& forall|i: int| 0 <= i < 16 ==> -4096 <= #[trigger] self.key@[i] < 4096
        &&& 11120640 <= self.modulo < 111206400
        &&& self.add == self.modulo as int / (MAX_CHR as int)
        &&& self.dim == 16
    }

    /// The key's fields as one word sequence, in declaration order; the
    /// binary layout is exactly the little-endian bytes of this sequence.
    pub open spec fn field_ints(self) -> Seq<i32> {
        self.key@ + seq![self.modulo, self.add, self.dim]
    }

    /// Draws a fresh secret key: the modulus uniformly from
    /// `[11120640, 111206400)`, each secret entry uniformly from
    /// `[-4096, 4096)`, and `add` as the integer quotient `modulo / MAX_CHR`.
    pub fn new() -> (s: Self)
        ensures
            s.wf(),
    {
        let mut rng = fresh_rng();
        let modulo = random_range_i32(&mut rng, 11120640, 111206400);
        let addv: i32 = modulo / MAX_CHR;
        let mut key: Vec<i32> = Vec::new();
        let mut i: usize = 0;
        while i < 16
            invariant
                i <= 16,
                key@.len() == i,
                forall|j: int| 0 <= j < i ==> -4096 <= #[trigger] key@[j] < 4096,
            decreases 16 - i,
        {
            key.push(random_range_i32(&mut rng, -4096, 4096));
            i += 1;
        }
        Self { key, modulo, add: addv, dim: 16 }
    }

    /// Whether this key satisfies the invariant that generation establishes;
    /// a key read back from raw bytes need not.
    pub fn well_formed(&self) -> (b: bool)
        ensures
            b == self.wf(),
    {
        if self.key.len() != 16 || self.dim != 16 {
            return false;
        }
        if !(11120640 <= self.modulo && self.modulo < 111206400) {
            return false;
        }
        if self.add != self.modulo / MAX_CHR {
            return false;
        }
        let mut i: usize = 0;
        while i < 16
            invariant
                i <= 16,
                self.key@.len() == 16,
                forall|j: int| 0 <= j < i ==> -4096 <= #[trigger] self.key@[j] < 4096,
            decreases 16 - i,
        {
            if !(-4096 <= self.key[i] && self.key[i] < 4096) {
                return false;
            }
            i += 1;
        }
        true
    }

    /// Serializes the key to its fixed 76-byte layout: the 16 key words,
    /// `modulo`, `add` and `dim`, each as four little-endian bytes.
    pub fn to_bytes(&self) -> (r: Vec<u8>)
        requires
            self.key@.len() == 16,
        ensures
            r@.len() == 76,
            r@ == ints_le_bytes(self.field_ints()),
            le_ints(r@) == self.field_ints(),
    {
        let mut out: Vec<u8> = Vec::new();
        proof {
            assert(ints_le_bytes(self.key@.take(0)) =~= Seq::<u8>::empty());
            assert(out@ =~= ints_le_bytes(self.key@.take(0)));
        }
        let mut j: usize = 0;
        while j < 16
            invariant
                j <= 16,
                self.key@.len() == 16,
                out@ == ints_le_bytes(self.key@.take(j as int)),
                out@.len() == 4 * j,
            decreases 16 - j,
        {
            push_i32_le(&mut out, self.key[j]);
            proof {
                let w2 = self.key@.take(j as int + 1);
                assert(w2.drop_last() =~= self.key@.take(j as int));
                assert(w2.last() == self.key@[j as int]);
            }
            j += 1;
        }
        push_i32_le(&mut out, self.modulo);
        push_i32_le(&mut out, self.add);
        push_i32_le(&mut out, self.dim);
        proof {
            let w0 = self.key@.take(16);
            let w1 = self.key@ + seq![self.modulo];
            let w2 = self.key@ + seq![self.modulo, self.add];
            assert(w0 =~= self.key@);
            assert(w1.drop_last() =~= w0);
            assert(w1.last() == self.modulo);
            assert(w2.drop_last() =~= w1);
            assert(w2.last() == self.add);
            assert(self.field_ints().drop_last() =~= w2);
            assert(self.field_ints().last() == self.dim);
            assert(ints_le_bytes(w2) =~= ints_le_bytes(w1) + i32_le_bytes(self.add));
            assert(ints_le_bytes(self.field_ints()) =~= ints_le_bytes(w2) + i32_le_bytes(
                self.dim,
            ));
            assert(out@ =~= ints_le_bytes(self.field_ints()));
            crate::bytes::lemma_le_ints_of_ints_le_bytes(self.field_ints());
        }
        out
    }

    /// Deserializes a key from the fixed layout; any 76-byte buffer is
    /// accepted, any other length is reported as invalid.
    pub fn from_bytes(bytes: Vec<u8>) -> (r: Result<Self, Error>)
        ensures
            r is Ok <==> bytes@.len() == 76,
            r matches Ok(s) ==> s.key@.len() == 16 && s.field_ints() == le_ints(bytes@),
            r matches Err(e) ==> e == Error::InvalidLength,
    {
        if bytes.len() != 76 {
            return Err(Error::InvalidLength);
        }
        let mut key: Vec<i32> = Vec::new();
        let mut j: usize = 0;
        while j < 16
            invariant
                j <= 16,
                bytes@.len() == 76,
                key@.len() == j,
                forall|j2: int| 0 <= j2 < j ==> #[trigger] key@[j2] == i32_from_le_at(
                    bytes@,
                    4 * j2,
                ),
            decreases 16 - j,
        {
            key.push(read_i32_le(&bytes, 4 * j));
            j += 1;
        }
        let modulo = read_i32_le(&bytes, 64);
        let addv = read_i32_le(&bytes, 68);
        let dim = read_i32_le(&bytes, 72);
        let s = Self { key, modulo, add: addv, dim };
        proof {
            assert(s.field_ints() =~= le_ints(bytes@));
        }
        Ok(s)
    }

    /// The base64 text of the serialized key.
    pub fn to_b64(&self) -> (r: String)
        requires
            self.key@.len() == 16,
        ensures
            r@ == b64_encoding(ints_le_bytes(self.field_ints())),
            b64_decoding(r@) == Some(ints_le_bytes(self.field_ints())),
    {
        let b = self.to_bytes();
        b64_encode(&b)
    }

    /// Reads a key back from base64 text of its serialized layout.
    pub fn from_b64(base64_str: String) -> (r: Result<Self, Error>)
        ensures
            b64_decoding(base64_str@) is None <==> r == Err::<Secret, Error>(
                Error::InvalidBase64,
            ),
            b64_decoding(base64_str@) matches Some(bs) ==> (r is Ok <==> bs.len() == 76),
            b64_decoding(base64_str@) matches Some(bs) ==> (r matches Ok(s) ==> s.key@.len() == 16
                && s.field_ints() == le_ints(bs)),
            b64_decoding(base64_str@) matches Some(bs) && bs.len() != 76 ==> r == Err::<
                Secret,
                Error,
            >(Error::InvalidLength),
    {
        match b64_decode(base64_str.as_str()) {
            None => Err(Error::InvalidBase64),
            Some(v) => Self::from_bytes(v),
        }
    }
}

impl Default for Secret {
    /// A fresh randomly generated key.
    fn default() -> (s: Self)
        ensures
            s.wf(),
    {
        Secret::new()
    }
}

/// `x mod m` mapped to the centered range `(-m/2, m/2]`: the canonical
/// representative of smallest magnitude.
pub open spec fn centered(x: int, m: int) -> int {
    let v = x % m;
    if 2 * v < m {
        v
    } else {
        v - m
    }
}

/// The exact inner product of the secret vector with the masking part of
/// row `r` of a public key.
pub open spec fn row_dot(skey: Seq<i32>, pk: Seq<i32>, r: int) -> int {
    dot_prefix(skey, pk.subrange(17 * r, 17 * r + 17), 16)
}

/// The noise hidden in row `r` of `pk`: how far its last word lies from the
/// true inner product, modulo the working modulus, centered.
pub open spec fn row_noise(s: Secret, pk: Seq<i32>, r: int) -> int {
    centered(pk[17 * r + 16] - row_dot(s.key@, pk, r), s.modulo as int)
}

/// The bound derivation puts on a row's noise: strictly inside
/// `[-add/10, add/10)` where that range is non-empty, none at all where
/// `add < 10` leaves no room.
pub open spec fn noise_bound_ok(e: int, addv: int) -> bool {
    if addv / 10 > 0 {
        -(addv / 10) <= e < addv / 10
    } else {
        e == 0
    }
}

/// What public-key derivation guarantees: the parameters are inherited, the
/// shape invariant holds, and every one of the 170 rows is a noisy sample
/// of the secret vector with bounded noise.
pub open spec fn derives(s: Secret, p: Public) -> bool {
    &&& p.modulo == s.modulo
    &&& p.add == s.add
    &&& p.dim == s.dim
    &&& p.wf()
    &&& forall|r: int|
        0 <= r < 170 ==> noise_bound_ok(#[trigger] row_noise(s, p.key@, r), s.add as int)
}

/// Recovering the noise from a reduced row word: if `b == (answer + e) % q`
/// and `e` is small, centering `b - answer` modulo `q` yields `e` back.
proof fn lemma_centered_recover(answer: int, e: int, q: int, b: int)
    requires
        0 < q,
        2 * e < q,
        -(2 * e) < q,
        b == (answer + e) % q,
    ensures
        centered(b - answer, q) == e,
{
    vstd::arithmetic::div_mod::lemma_fundamental_div_mod(answer + e, q);
    let t = (answer + e) / q;
    assert(q * (-t) == -(q * t)) by (nonlinear_arith);
    assert(b - answer == q * (-t) + e);
    vstd::arithmetic::div_mod::lemma_mod_multiples_vanish(-t, e, q);
    assert((b - answer) % q == e % q);
    if e >= 0 {
        vstd::arithmetic::div_mod::lemma_small_mod(e as nat, q as nat);
    } else {
        vstd::arithmetic::div_mod::lemma_fundamental_div_mod_converse(e, q, -1, e + q);
    }
}

impl Secret {
    /// Derives a fresh public key: 170 rows, each made of 16 freshly drawn
    /// masking coefficients followed by their inner product with the secret
    /// vector plus a small noise term, reduced modulo `modulo`.  The
    /// parameters are copied; every row's hidden noise is bounded by
    /// `add / 10`.
    pub fn generate_public_key(&self) -> (p: Public)
        requires
            self.wf(),
        ensures
            derives(*self, p),
            p.modulo == self.modulo,
            p.add == self.add,
            p.dim == self.dim,
            p.wf(),
            p.key@.len() == 2890,
    {
        proof {
            lemma_add_range(self.modulo as int);
        }
        let mut rng = fresh_rng();
        let addv = self.add;
        let max_fuzz = addv / 10;
        let mut key: Vec<i32> = Vec::new();
        let mut r: usize = 0;
        while r < 170
            invariant
                self.wf(),
                addv == self.add,
                9 <= addv <= 99,
                max_fuzz == self.add as int / 10,
                0 <= max_fuzz <= 9,
                r <= 170,
                key@.len() == 17 * r,
                forall|i: int|
                    0 <= i < key@.len() && i % 17 != 16 ==> -4096 <= #[trigger] key@[i] < 4096,
                forall|i: int| 0 <= i < key@.len() && i % 17 == 16 ==> 0 <= #[trigger] key@[i]
                    < self.modulo,
                forall|r2: int|
                    0 <= r2 < r ==> noise_bound_ok(
                        #[trigger] row_noise(*self, key@, r2),
                        self.add as int,
                    ),
            decreases 170 - r,
        {
            let ghost old_key = key@;
            let mut answer: i32 = 0;
            let mut k: usize = 0;
            while k < 16
                invariant
                    self.wf(),
                    r <= 169,
                    k <= 16,
                    key@.len() == 17 * r + k,
                    forall|i: int| 0 <= i < 17 * r ==> #[trigger] key@[i] == old_key[i],
                    forall|i: int|
                        17 * r <= i < key@.len() ==> -4096 <= #[trigger] key@[i] < 4096,
                    answer == dot_prefix(self.key@, key@.skip(17 * r as int), k as int),
                    -16777216 * k <= answer <= 16777216 * k,
                decreases 16 - k,
            {
                let num = random_range_i32(&mut rng, -4096, 4096);
                let ghost prev = key@;
                key.push(num);
                proof {
                    lemma_dot_prefix_congruence(
                        self.key@,
                        prev.skip(17 * r as int),
                        key@.skip(17 * r as int),
                        k as int,
                    );
                    assert(key@.skip(17 * r as int)[k as int] == num);
                }
                proof {
                    assert(-16777216 <= self.key@[k as int] * num <= 16777216)
                        by (nonlinear_arith)
                        requires
                            -4096 <= self.key@[k as int] < 4096,
                            -4096 <= num < 4096,
                    ;
                }
                let prod = self.key[k] * num;
                answer = answer + prod;
                k += 1;
            }
            let e = if max_fuzz > 0 {
                random_range_i32(&mut rng, -max_fuzz, max_fuzz)
            } else {
                0
            };
            let b = modulus(answer + e, self.modulo);
            let ghost row_part = key@;
            key.push(b);
            proof {
                assert(key@.subrange(17 * r as int, 17 * r as int + 17).take(16) =~= row_part.skip(
                    17 * r as int,
                ));
                lemma_dot_prefix_congruence(
                    self.key@,
                    row_part.skip(17 * r as int),
                    key@.subrange(17 * r as int, 17 * r as int + 17),
                    16,
                );
                assert(key@[17 * r as int + 16] == b);
                lemma_centered_recover(
                    answer as int,
                    e as int,
                    self.modulo as int,
                    b as int,
                );
                assert(row_noise(*self, key@, r as int) == e);
                assert(noise_bound_ok(e as int, self.add as int));
                assert forall|r2: int| 0 <= r2 < r + 1 implies noise_bound_ok(
                    #[trigger] row_noise(*self, key@, r2),
                    self.add as int,
                ) by {
                    if r2 < r {
                        assert(key@.subrange(17 * r2, 17 * r2 + 17) =~= old_key.subrange(
                            17 * r2,
                            17 * r2 + 17,
                        ));
                        assert(key@[17 * r2 + 16] == old_key[17 * r2 + 16]);
                        assert(row_noise(*self, key@, r2) == row_noise(*self, old_key, r2));
                    }
                }
                assert forall|i: int|
                    0 <= i < key@.len() && i % 17 != 16 implies -4096 <= #[trigger] key@[i]
                    < 4096 by {
                    if i >= 17 * r {
                        lemma_row_index_mod(r as int, i - 17 * r);
                    }
                }
                assert forall|i: int|
                    0 <= i < key@.len() && i % 17 == 16 implies 0 <= #[trigger] key@[i]
                    < self.modulo by {
                    if i >= 17 * r {
                        lemma_row_index_mod(r as int, i - 17 * r);
                    }
                }
            }
            r += 1;
        }
        Public::new(self.modulo, key, addv, self.dim)
    }
}

/// The scalar value one 17-word ciphertext chunk decodes to under a secret
/// key: the wrapping inner product of the secret vector with the first 16
/// words is subtracted (wrapping) from the last word, the difference is
/// reduced to `[0, modulo)`, and the result is divided by `add` rounding
/// half away from zero.
pub open spec fn chunk_scalar(skey: Seq<i32>, modulo: int, addv: int, chunk: Seq<i32>) -> int {
    let d = wrap_dot_prefix(skey, chunk, 16);
    let diff = vstd::wrapping::i32_specs::wrapping_sub(chunk[16], d);
    let v = spec_modulus(diff as int, modulo);
    (2 * v + addv) / (2 * addv)
}

/// Whether a decoded value is a Unicode scalar value.
pub open spec fn scalar_ok(v: int) -> bool {
    0 <= v <= 0x10FFFF && !(0xD800 <= v <= 0xDFFF)
}

impl Secret {
    /// Decrypts raw ciphertext bytes: the buffer must hold a whole number
    /// of 68-byte chunks; chunk `i` decodes, independently of every other
    /// chunk, to character `i` of the output.  A chunk whose decoded value
    /// is not a Unicode scalar is reported, never substituted.
    pub fn decrypt_bytes(&self, message: &Vec<u8>) -> (r: Result<String, Error>)
        requires
            self.wf(),
        ensures
            message@.len() % 68 != 0 <==> r == Err::<String, Error>(Error::InvalidLength),
            r != Err::<String, Error>(Error::InvalidBase64),
            r matches Ok(out) ==> {
                &&& message@.len() % 68 == 0
                &&& out@.len() == message@.len() as int / 68
                &&& forall|ci: int|
                    0 <= ci < out@.len() ==> scalar_ok(
                        #[trigger] chunk_scalar(
                            self.key@,
                            self.modulo as int,
                            self.add as int,
                            le_ints(message@).subrange(17 * ci, 17 * ci + 17),
                        ),
                    )
                &&& forall|ci: int|
                    0 <= ci < out@.len() ==> (#[trigger] out@[ci]) as u32 == chunk_scalar(
                        self.key@,
                        self.modulo as int,
                        self.add as int,
                        le_ints(message@).subrange(17 * ci, 17 * ci + 17),
                    )
            },
            r == Err::<String, Error>(Error::InvalidChar) <==> (message@.len() % 68 == 0
                && exists|ci: int|
                0 <= ci < message@.len() as int / 68 && !scalar_ok(
                    #[trigger] chunk_scalar(
                        self.key@,
                        self.modulo as int,
                        self.add as int,
                        le_ints(message@).subrange(17 * ci, 17 * ci + 17),
                    ),
                )),
            message@.len() == 0 ==> (r matches Ok(out) && out@.len() == 0),
    {
        proof {
            lemma_add_range(self.modulo as int);
        }
        let n = message.len();
        if n % 68 != 0 {
            return Err(Error::InvalidLength);
        }
        let m = n / 68;
        let total = m * 17;
        proof {
            vstd::arithmetic::div_mod::lemma_fundamental_div_mod(n as int, 68);
            assert(n == 68 * m);
            assert(le_ints(message@).len() == 17 * m) by {
                vstd::arithmetic::div_mod::lemma_fundamental_div_mod_converse(
                    n as int,
                    4,
                    17 * m,
                    0,
                );
            }
        }
        let mut ints: Vec<i32> = Vec::new();
        let mut j: usize = 0;
        while j < total
            invariant
                total == 17 * m,
                n == 68 * m,
                n == message@.len(),
                j <= total,
                ints@.len() == j,
                forall|j2: int|
                    0 <= j2 < j ==> #[trigger] ints@[j2] == i32_from_le_at(message@, 4 * j2),
            decreases total - j,
        {
            ints.push(read_i32_le(message, 4 * j));
            j += 1;
        }
        proof {
            assert(ints@ =~= le_ints(message@));
        }
        let il = ints.len();
        let mut out = String::new();
        let mut ci: usize = 0;
        while ci < m
            invariant
                self.wf(),
                9 <= self.add <= 99,
                n == message@.len(),
                n == 68 * m,
                ints@ == le_ints(message@),
                ints@.len() == 17 * m,
                il == 17 * m,
                ci <= m,
                out@.len() == ci,
                forall|c2: int|
                    0 <= c2 < ci ==> scalar_ok(
                        #[trigger] chunk_scalar(
                            self.key@,
                            self.modulo as int,
                            self.add as int,
                            le_ints(message@).subrange(17 * c2, 17 * c2 + 17),
                        ),
                    ),
                forall|c2: int|
                    0 <= c2 < ci ==> (#[trigger] out@[c2]) as u32 == chunk_scalar(
                        self.key@,
                        self.modulo as int,
                        self.add as int,
                        le_ints(message@).subrange(17 * c2, 17 * c2 + 17),
                    ),
            decreases m - ci,
        {
            let ghost chunkseq = ints@.subrange(17 * ci as int, 17 * ci as int + 17);
            let mut acc: i32 = 0;
            let mut k: usize = 0;
            while k < 16
                invariant
                    self.wf(),
                    ci < m,
                    ints@.len() == 17 * m,
                    il == 17 * m,
                    k <= 16,
                    chunkseq == ints@.subrange(17 * ci as int, 17 * ci as int + 17),
                    acc == wrap_dot_prefix(self.key@, chunkseq, k as int),
                decreases 16 - k,
            {
                let w = self.key[k].wrapping_mul(ints[17 * ci + k]);
                proof {
                    assert(chunkseq[k as int] == ints@[17 * ci + k]);
                }
                acc = acc.wrapping_add(w);
                k += 1;
            }
            let last = ints[17 * ci + 16];
            proof {
                assert(chunkseq[16] == ints@[17 * ci + 16]);
            }
            let diff = last.wrapping_sub(acc);
            let v = modulus(diff, self.modulo);
            let vu: u32 = v as u32;
            let addu: u32 = self.add as u32;
            let qu: u32 = (2 * vu + addu) / (2 * addu);
            proof {
                assert(qu == chunk_scalar(
                    self.key@,
                    self.modulo as int,
                    self.add as int,
                    chunkseq,
                ));
            }
            match char_from_u32(qu) {
                Some(chc) => {
                    let ghost old_out = out@;
                    push_char(&mut out, chc);
                    proof {
                        assert(vstd::utf8::is_scalar(qu));
                        assert(scalar_ok(qu as int));
                        assert forall|c2: int| 0 <= c2 < ci + 1 implies (#[trigger] out@[c2])
                            as u32 == chunk_scalar(
                            self.key@,
                            self.modulo as int,
                            self.add as int,
                            le_ints(message@).subrange(17 * c2, 17 * c2 + 17),
                        ) by {
                            if c2 < ci {
                                assert(out@[c2] == old_out[c2]);
                            } else {
                                assert(out@[c2] == chc);
                                assert(chc as u32 == qu);
                                assert(qu == chunk_scalar(
                                    self.key@,
                                    self.modulo as int,
                                    self.add as int,
                                    le_ints(message@).subrange(17 * c2, 17 * c2 + 17),
                                ));
                            }
                        }
                        assert forall|c2: int| 0 <= c2 < ci + 1 implies scalar_ok(
                            #[trigger] chunk_scalar(
                                self.key@,
                                self.modulo as int,
                                self.add as int,
                                le_ints(message@).subrange(17 * c2, 17 * c2 + 17),
                            ),
                        ) by {
                            if c2 == ci as int {
                                assert(qu == chunk_scalar(
                                    self.key@,
                                    self.modulo as int,
                                    self.add as int,
                                    le_ints(message@).subrange(17 * c2, 17 * c2 + 17),
                                ));
                            }
                        }
                    }
                },
                None => {
                    proof {
                        assert(!scalar_ok(chunk_scalar(
                            self.key@,
                            self.modulo as int,
                            self.add as int,
                            le_ints(message@).subrange(17 * ci as int, 17 * ci as int + 17),
                        )));
                    }
                    return Err(Error::InvalidChar);
                },
            }
            ci += 1;
        }
        Ok(out)
    }

    /// Decrypts base64-wrapped ciphertext text, as `encrypt` produces it:
    /// the text is decoded from base64 and the bytes are decrypted.
    pub fn decrypt(&self, message: &str) -> (r: Result<String, Error>)
        requires
            self.wf(),
        ensures
            b64_decoding(message@) is None <==> r == Err::<String, Error>(Error::InvalidBase64),
            b64_decoding(message@) matches Some(bs) ==> {
                &&& (bs.len() % 68 != 0 <==> r == Err::<String, Error>(Error::InvalidLength))
                &&& (r matches Ok(out) ==> bs.len() % 68 == 0 && out@.len() == bs.len() as int / 68
                    && (forall|ci: int|
                    0 <= ci < out@.len() ==> scalar_ok(
                        #[trigger] chunk_scalar(
                            self.key@,
                            self.modulo as int,
                            self.add as int,
                            le_ints(bs).subrange(17 * ci, 17 * ci + 17),
                        ),
                    )) && (forall|ci: int|
                    0 <= ci < out@.len() ==> (#[trigger] out@[ci]) as u32 == chunk_scalar(
                        self.key@,
                        self.modulo as int,
                        self.add as int,
                        le_ints(bs).subrange(17 * ci, 17 * ci + 17),
                    )))
                &&& (r == Err::<String, Error>(Error::InvalidChar) <==> (bs.len() % 68 == 0
                    && exists|ci: int|
                    0 <= ci < bs.len() as int / 68 && !scalar_ok(
                        #[trigger] chunk_scalar(
                            self.key@,
                            self.modulo as int,
                            self.add as int,
                            le_ints(bs).subrange(17 * ci, 17 * ci + 17),
                        ),
                    )))
            },
            message@.len() == 0 ==> (r matches Ok(out) && out@.len() == 0),
    {
        match b64_decode(message) {
            None => Err(Error::InvalidBase64),
            Some(v) => self.decrypt_bytes(&v),
        }
    }
}

/// Sum of the exact inner products of the secret vector with the selected
/// rows.
pub open spec fn rows_dot_sum(skey: Seq<i32>, pk: Seq<i32>, rows: Seq<int>) -> int
    decreases rows.len(),
{
    if rows.len() == 0 {
        0
    } else {
        rows_dot_sum(skey, pk, rows.drop_last()) + row_dot(skey, pk, rows.last())
    }
}

/// Sum of the noise hidden in the selected rows.
pub open spec fn rows_noise_sum(s: Secret, pk: Seq<i32>, rows: Seq<int>) -> int
    decreases rows.len(),
{
    if rows.len() == 0 {
        0
    } else {
        rows_noise_sum(s, pk, rows.drop_last()) + row_noise(s, pk, rows.last())
    }
}

proof fn lemma_row_sum_bounds(p: Public, rows: Seq<int>, k: int)
    requires
        p.wf(),
        forall|j: int| 0 <= j < rows.len() ==> 0 <= #[trigger] rows[j] < 160,
        0 <= k < 17,
    ensures
        k < 16 ==> -4096 * rows.len() <= row_sum_at(p.key@, rows, k) <= 4096 * rows.len(),
        k == 16 ==> 0 <= row_sum_at(p.key@, rows, 16) <= 111206399 * rows.len(),
    decreases rows.len(),
{
    if rows.len() > 0 {
        lemma_row_sum_bounds(p, rows.drop_last(), k);
        lemma_row_index_mod(rows.last(), k);
    }
}

proof fn lemma_dot_of_row_sums(s: Secret, p: Public, rows: Seq<int>, chunk: Seq<i32>)
    requires
        s.wf(),
        p.wf(),
        rows.len() <= 4,
        forall|j: int| 0 <= j < rows.len() ==> 0 <= #[trigger] rows[j] < 160,
        chunk.len() >= 16,
        forall|k: int| 0 <= k < 16 ==> #[trigger] chunk[k] == row_sum_at(p.key@, rows, k),
    ensures
        dot_prefix(s.key@, chunk, 16) == rows_dot_sum(s.key@, p.key@, rows),
    decreases rows.len(),
{
    if rows.len() == 0 {
        crate::keys::lemma_dot_prefix_zero(s.key@, chunk, 16);
    } else {
        let rows2 = rows.drop_last();
        let x = rows.last();
        assert forall|k: int| 0 <= k < 16 implies -16384 <= #[trigger] row_sum_at(
            p.key@,
            rows2,
            k,
        ) <= 16384 by {
            lemma_row_sum_bounds(p, rows2, k);
        }
        let chunk2 = Seq::new(16, |k: int| row_sum_at(p.key@, rows2, k) as i32);
        assert forall|k: int| 0 <= k < 16 implies #[trigger] chunk2[k] == row_sum_at(
            p.key@,
            rows2,
            k,
        ) by {
            lemma_row_sum_bounds(p, rows2, k);
        }
        let rowseq = p.key@.subrange(17 * x, 17 * x + 17);
        assert forall|k: int| 0 <= k < 16 implies #[trigger] chunk[k] == chunk2[k] + rowseq[k] by {
            assert(row_sum_at(p.key@, rows, k) == row_sum_at(p.key@, rows2, k) + p.key@[17 * x
                + k]);
            assert(rowseq[k] == p.key@[17 * x + k]);
        }
        crate::keys::lemma_dot_prefix_additive(s.key@, chunk, chunk2, rowseq, 16);
        lemma_dot_of_row_sums(s, p, rows2, chunk2);
    }
}

proof fn lemma_bsum_congruent(s: Secret, p: Public, rows: Seq<int>)
    requires
        s.wf(),
        derives(s, p),
        rows.len() <= 4,
        forall|j: int| 0 <= j < rows.len() ==> 0 <= #[trigger] rows[j] < 160,
    ensures
        row_sum_at(p.key@, rows, 16) % (s.modulo as int) == (rows_dot_sum(s.key@, p.key@, rows)
            + rows_noise_sum(s, p.key@, rows)) % (s.modulo as int),
        -(rows.len() * (s.add as int / 10)) <= rows_noise_sum(s, p.key@, rows) <= rows.len() * (
        s.add as int / 10),
    decreases rows.len(),
{
    let q = s.modulo as int;
    let fuzz = s.add as int / 10;
    lemma_add_range(q);
    if rows.len() == 0 {
        vstd::arithmetic::div_mod::lemma_small_mod(0, q as nat);
    } else {
        let rows2 = rows.drop_last();
        let x = rows.last();
        lemma_bsum_congruent(s, p, rows2);
        let bsum2 = row_sum_at(p.key@, rows2, 16);
        let dsum2 = rows_dot_sum(s.key@, p.key@, rows2);
        let esum2 = rows_noise_sum(s, p.key@, rows2);
        let bx = p.key@[17 * x + 16] as int;
        let dx = row_dot(s.key@, p.key@, x);
        let ex = row_noise(s, p.key@, x);
        lemma_row_index_mod(x, 16);
        assert(0 <= bx < q);
        // the hidden noise of row x satisfies its bound
        assert(noise_bound_ok(ex, s.add as int));
        // bx is congruent to dx + ex modulo q
        let v = (bx - dx) % q;
        vstd::arithmetic::div_mod::lemma_mod_bound(bx - dx, q);
        assert(ex == v || ex == v - q);
        vstd::arithmetic::div_mod::lemma_mod_multiples_vanish(-1, v, q);
        assert((q * (-1) + v) == v - q);
        assert(ex % q == v % q);
        vstd::arithmetic::div_mod::lemma_small_mod(v as nat, q as nat);
        assert(ex % q == v);
        // (dx + ex) % q == bx % q
        vstd::arithmetic::div_mod::lemma_add_mod_noop_right(dx, ex, q);
        assert((dx + ex) % q == (dx + v) % q) by {
            vstd::arithmetic::div_mod::lemma_add_mod_noop_right(dx, v, q);
        }
        vstd::arithmetic::div_mod::lemma_fundamental_div_mod(bx - dx, q);
        let tv = (bx - dx) / q;
        assert(q * (-tv) == -(q * tv)) by (nonlinear_arith);
        assert(dx + v == q * (-tv) + bx);
        vstd::arithmetic::div_mod::lemma_mod_multiples_vanish(-tv, bx, q);
        assert((dx + v) % q == bx % q);
        vstd::arithmetic::div_mod::lemma_small_mod(bx as nat, q as nat);
        // combine with the sum over the remaining rows
        let bsum = row_sum_at(p.key@, rows, 16);
        let dsum = rows_dot_sum(s.key@, p.key@, rows);
        let esum = rows_noise_sum(s, p.key@, rows);
        assert(bsum == bsum2 + bx);
        assert(dsum == dsum2 + dx);
        assert(esum == esum2 + ex);
        vstd::arithmetic::div_mod::lemma_add_mod_noop(bsum2, bx, q);
        assert((bsum2 % q + bx % q) % q == bsum % q);
        assert(bsum2 % q == (dsum2 + esum2) % q);
        assert(bx % q == (dx + ex) % q);
        vstd::arithmetic::div_mod::lemma_add_mod_noop(dsum2 + esum2, dx + ex, q);
        assert(bsum % q == ((dsum2 + esum2) + (dx + ex)) % q);
        assert((dsum2 + esum2) + (dx + ex) == dsum + esum);
        // noise bound accumulates
        assert(rows.len() * fuzz == rows2.len() * fuzz + fuzz) by (nonlinear_arith)
            requires
                rows.len() == rows2.len() + 1,
        ;
    }
}

/// Round trip of one character: a ciphertext chunk formed by encryption
/// under a public key derived from `s` decodes, under `s`, back to the very
/// character it carries.  Chunks decode independently of one another, so
/// this fixes the whole plaintext in order.  The two boundary scalars are
/// excluded: for the character 0, and for the maximum scalar on moduli that
/// 1114111 divides almost exactly, the folded value can wrap around the
/// modulus and decode wrongly.
pub proof fn lemma_chunk_round_trip(s: Secret, p: Public, c: char, chunk: Seq<i32>)
    requires
        s.wf(),
        derives(s, p),
        encrypted_chunk_ok(p.key@, p.modulo as int, p.add as int, c, chunk),
        1 <= (c as u32) && (c as u32) < 1114111,
    ensures
        chunk_scalar(s.key@, s.modulo as int, s.add as int, chunk) == c as u32,
        scalar_ok(chunk_scalar(s.key@, s.modulo as int, s.add as int, chunk)),
{
    let q = s.modulo as int;
    let addv = s.add as int;
    let fuzz = addv / 10;
    lemma_add_range(q);
    vstd::arithmetic::div_mod::lemma_fundamental_div_mod(addv, 10);
    assert(10 * fuzz <= addv);
    let rows = choose|rows: Seq<int>|
        rows_ok(rows) && #[trigger] chunk_from_rows(
            p.key@,
            p.modulo as int,
            p.add as int,
            rows,
            c,
            chunk,
        );
    assert forall|k: int| 0 <= k < 16 implies -16384 <= #[trigger] chunk[k] <= 16384 by {
        lemma_row_sum_bounds(p, rows, k);
    }
    crate::keys::lemma_wrap_dot_eq(s.key@, chunk, 16, 4096, 16384);
    let d = dot_prefix(s.key@, chunk, 16);
    lemma_dot_of_row_sums(s, p, rows, chunk);
    lemma_bsum_congruent(s, p, rows);
    let bsum = row_sum_at(p.key@, rows, 16);
    let dsum = rows_dot_sum(s.key@, p.key@, rows);
    let esum = rows_noise_sum(s, p.key@, rows);
    assert(d == dsum);
    // bound the accumulated noise
    assert(rows.len() * fuzz <= 4 * fuzz) by (nonlinear_arith)
        requires
            rows.len() <= 4,
            fuzz >= 0,
    ;
    assert(-(4 * fuzz) <= esum <= 4 * fuzz);
    // the last chunk word, unfolded
    let cv = (c as u32) as int;
    let a = bsum + cv * addv;
    assert(chunk[16] == a % q);
    vstd::arithmetic::div_mod::lemma_mod_bound(a, q);
    // the wrapping subtraction in decoding is exact here
    let diff = chunk[16] - d;
    assert(vstd::wrapping::i32_specs::wrapping_sub(chunk[16], wrap_dot_prefix(s.key@, chunk, 16))
        == diff);
    // diff is congruent to cv * addv + esum modulo q
    vstd::arithmetic::div_mod::lemma_fundamental_div_mod(a, q);
    let ta = a / q;
    assert(q * (-ta) == -(q * ta)) by (nonlinear_arith);
    vstd::arithmetic::div_mod::lemma_mod_multiples_vanish(-ta, a - d, q);
    assert(q * (-ta) + (a - d) == diff);
    assert(diff % q == (a - d) % q);
    // replace bsum by dsum + esum under the modulus
    vstd::arithmetic::div_mod::lemma_fundamental_div_mod(bsum, q);
    vstd::arithmetic::div_mod::lemma_fundamental_div_mod(dsum + esum, q);
    let t1 = bsum / q;
    let t2 = (dsum + esum) / q;
    assert(bsum - (dsum + esum) == q * t1 - q * t2);
    assert(q * t1 - q * t2 == q * (t1 - t2)) by (nonlinear_arith);
    vstd::arithmetic::div_mod::lemma_mod_multiples_vanish(t1 - t2, cv * addv + esum, q);
    assert(q * (t1 - t2) + (cv * addv + esum) == a - d);
    assert(diff % q == (cv * addv + esum) % q);
    // the folded value does not wrap: it lies in [0, q)
    assert(addv <= cv * addv) by (nonlinear_arith)
        requires
            1 <= cv,
            0 <= addv,
    ;
    vstd::arithmetic::mul::lemma_mul_inequality(cv, 1114110, addv);
    assert(1114110 * addv == 1114111 * addv - addv);
    vstd::arithmetic::div_mod::lemma_fundamental_div_mod(q, 1114111);
    vstd::arithmetic::div_mod::lemma_mod_bound(q, 1114111);
    assert(1114111 * addv <= q);
    assert(8 * fuzz < addv);
    assert(0 <= cv * addv + esum < q);
    vstd::arithmetic::div_mod::lemma_small_mod((cv * addv + esum) as nat, q as nat);
    let v = cv * addv + esum;
    assert(diff % q == v);
    // rounding recovers the character exactly
    assert(2 * v + addv == (2 * addv) * cv + (2 * esum + addv)) by (nonlinear_arith)
        requires
            v == cv * addv + esum,
    ;
    assert(0 <= 2 * esum + addv < 2 * addv);
    vstd::arithmetic::div_mod::lemma_fundamental_div_mod_converse(
        2 * v + addv,
        2 * addv,
        cv,
        2 * esum + addv,
    );
    assert(chunk_scalar(s.key@, s.modulo as int, s.add as int, chunk) == cv);
    vstd::utf8::char_is_scalar(c);
}

/// Round trip of a whole message: every chunk of a ciphertext produced for
/// `msg` under a public key derived from `s` decodes back to the character
/// at its own position, independently of all other chunks.  Characters 0
/// and 1114111 are excluded, as in `lemma_chunk_round_trip`.
pub proof fn lemma_encrypt_decrypt_round_trip(s: Secret, p: Public, bytes: Seq<u8>, msg: Seq<char>)
    requires
        s.wf(),
        derives(s, p),
        bytes.len() == 68 * msg.len(),
        forall|i: int|
            0 <= i < msg.len() ==> encrypted_chunk_ok(
                p.key@,
                p.modulo as int,
                p.add as int,
                msg[i],
                #[trigger] le_ints(bytes).subrange(17 * i, 17 * i + 17),
            ),
        forall|i: int| 0 <= i < msg.len() ==> 1 <= #[trigger] (msg[i] as u32) && (msg[i] as u32) < 1114111,
    ensures
        forall|i: int|
            0 <= i < msg.len() ==> scalar_ok(
                #[trigger] chunk_scalar(
                    s.key@,
                    s.modulo as int,
                    s.add as int,
                    le_ints(bytes).subrange(17 * i, 17 * i + 17),
                ),
            ),
        forall|i: int|
            0 <= i < msg.len() ==> chunk_scalar(
                s.key@,
                s.modulo as int,
                s.add as int,
                #[trigger] le_ints(bytes).subrange(17 * i, 17 * i + 17),
            ) == msg[i] as u32,
{
    assert forall|i: int| 0 <= i < msg.len() implies scalar_ok(
        #[trigger] chunk_scalar(
            s.key@,
            s.modulo as int,
            s.add as int,
            le_ints(bytes).subrange(17 * i, 17 * i + 17),
        ),
    ) && chunk_scalar(
        s.key@,
        s.modulo as int,
        s.add as int,
        le_ints(bytes).subrange(17 * i, 17 * i + 17),
    ) == msg[i] as u32 by {
        lemma_chunk_round_trip(s, p, msg[i], le_ints(bytes).subrange(17 * i, 17 * i + 17));
    }
}

/// Character sequences that agree scalar for scalar are equal: with
/// `lemma_encrypt_decrypt_round_trip` and the contract of `decrypt`, the
/// decrypted text is the encrypted one, character for character.
pub proof fn lemma_chars_from_scalars(a: Seq<char>, b: Seq<char>)
    requires
        a.len() == b.len(),
        forall|i: int| 0 <= i < a.len() ==> #[trigger] (a[i] as u32) == (b[i] as u32),
    ensures
        a == b,
{
    assert forall|i: int| 0 <= i < a.len() implies a[i] == b[i] by {
        vstd::utf8::char_u32_cast(a[i], a[i] as u32);
        vstd::utf8::char_u32_cast(b[i], b[i] as u32);
    }
    assert(a =~= b);
}

/// Serialization loses nothing: two secret keys with the same serialized
/// word sequence agree field for field, so deserializing a serialized key
/// reproduces it exactly.
pub proof fn lemma_secret_serialization_round_trip(s1: Secret, s2: Secret)
    requires
        s1.key@.len() == 16,
        s2.key@.len() == 16,
        s1.field_ints() == s2.field_ints(),
    ensures
        s1.key@ == s2.key@,
        s1.modulo == s2.modulo,
        s1.add == s2.add,
        s1.dim == s2.dim,
{
    assert forall|j: int| 0 <= j < 16 implies s1.key@[j] == s2.key@[j] by {
        assert(s1.field_ints()[j] == s1.key@[j] && s2.field_ints()[j] == s2.key@[j]);
    }
    assert(s1.key@ =~= s2.key@);
    assert(s1.field_ints()[16] == s1.modulo && s2.field_ints()[16] == s2.modulo);
    assert(s1.field_ints()[17] == s1.add && s2.field_ints()[17] == s2.add);
    assert(s1.field_ints()[18] == s1.dim && s2.field_ints()[18] == s2.dim);
}

} // verus!
