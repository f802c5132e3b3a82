//! The public key: 170 noisy samples of the secret vector, and encryption.

use crate::b64::{b64_decode, b64_decoding, b64_encode, b64_encoding};
use crate::bytes::{i32_from_le_at, i32_le_bytes, ints_le_bytes, le_ints, push_i32_le, read_i32_le};
use crate::keys::{modulus, spec_modulus, MAX_CHR};
use crate::rng::{fresh_rng, random_range_i32};
use crate::Error;
use vstd::prelude::*;

verus! {

/// A derived public key: `key` holds 170 rows of 17 signed words each; a
/// row's first 16 words are masking coefficients and its last word is the
/// noisy inner product of those coefficients with the secret vector, reduced
/// modulo `modulo`.  `modulo`, `add` and `dim` are copied from the secret
/// key that produced it.
pub struct Public {
    pub modulo: i32,
    pub key: Vec<i32>,
    pub add: i32,
    pub dim: i32,
}

impl Public {
    /// Shape and range invariant of a derived public key: 2890 words, the
    /// masking entries in `[-4096, 4096)`, the reduced entries in
    /// `[0, modulo)`, and the parameters consistent.
    pub open spec fn wf(self) -> bool {
        &&& self.dim == 16
        &&& self.key@.len() == 2890
        &&& 11120640 <= self.modulo < 111206400
        &&& self.add == self.modulo as int / (MAX_CHR as int)
        &&& forall|i: int|
            0 <= i < 2890 && i % 17 != 16 ==> -4096 <= #[trigger] self.key@[i] < 4096
        &&& forall|i: int| 0 <= i < 2890 && i % 17 == 16 ==> 0 <= #[trigger] self.key@[i]
            < self.modulo
    }

    /// The key's fields as one word sequence, in declaration order; the
    /// binary layout is exactly the little-endian bytes of this sequence.
    pub open spec fn field_ints(self) -> Seq<i32> {
        seq![self.modulo] + self.key@ + seq![self.add, self.dim]
    }

    pub fn new(modulo: i32, key: Vec<i32>, add: i32, dim: i32) -> (p: Self)
        ensures
            p.modulo == modulo,
            p.key@ == key@,
            p.add == add,
            p.dim == dim,
    {
        Self { modulo, key, add, dim }
    }

    /// Whether this key satisfies the invariant that derivation establishes;
    /// a key read back from raw bytes need not.
    pub fn well_formed(&self) -> (b: bool)
        ensures
            b == self.wf(),
    {
        if self.dim != 16 || self.key.len() != 2890 {
            return false;
        }
        if !(11120640 <= self.modulo && self.modulo < 111206400) {
            return false;
        }
        if self.add != self.modulo / MAX_CHR {
            return false;
        }
        let mut i: usize = 0;
        while i < 2890
            invariant
                i <= 2890,
                self.key@.len() == 2890,
                forall|j: int|
                    0 <= j < i && j % 17 != 16 ==> -4096 <= #[trigger] self.key@[j] < 4096,
                forall|j: int| 0 <= j < i && j % 17 == 16 ==> 0 <= #[trigger] self.key@[j]
                    < self.modulo,
            decreases 2890 - i,
        {
            if i % 17 != 16 {
                if !(-4096 <= self.key[i] && self.key[i] < 4096) {
                    return false;
                }
            } else {
                if !(0 <= self.key[i] && self.key[i] < self.modulo) {
                    return false;
                }
            }
            i += 1;
        }
        true
    }
}

/// Elementwise sum, at position `k`, of the rows of `pk` selected by `rows`.
pub open spec fn row_sum_at(pk: Seq<i32>, rows: Seq<int>, k: int) -> int
    decreases rows.len(),
{
    if rows.len() == 0 {
        0
    } else {
        row_sum_at(pk, rows.drop_last(), k) + pk[17 * rows.last() + k]
    }
}

/// The row choices encryption is allowed to make: two to four rows, all
/// drawn from the first 160 of the 170 available.
pub open spec fn rows_ok(rows: Seq<int>) -> bool {
    &&& 2 <= rows.len() <= 4
    &&& forall|j: int| 0 <= j < rows.len() ==> 0 <= #[trigger] rows[j] < 160
}

/// How one ciphertext chunk arises from the selected rows: the first 16
/// words are the summed masking coefficients, the last is the summed noisy
/// term with the scaled character folded in under the modulus.
pub open spec fn chunk_from_rows(
    pk: Seq<i32>,
    modulo: int,
    addv: int,
    rows: Seq<int>,
    c: char,
    chunk: Seq<i32>,
) -> bool {
    &&& chunk.len() == 17
    &&& forall|k: int| 0 <= k < 16 ==> #[trigger] chunk[k] == row_sum_at(pk, rows, k)
    &&& chunk[16] == spec_modulus(row_sum_at(pk, rows, 16) + (c as u32) * addv, modulo)
}

/// A chunk is a valid encryption of `c` when some allowed row selection
/// produces it.
pub open spec fn encrypted_chunk_ok(
    pk: Seq<i32>,
    modulo: int,
    addv: int,
    c: char,
    chunk: Seq<i32>,
) -> bool {
    exists|rows: Seq<int>| rows_ok(rows) && #[trigger] chunk_from_rows(
        pk,
        modulo,
        addv,
        rows,
        c,
        chunk,
    )
}

impl Public {
    /// Encrypts `message` to raw ciphertext bytes: 17 little-endian words
    /// per character, in character order; each chunk is the sum of a few
    /// randomly chosen rows with the scaled character folded into its last
    /// word.
    pub fn encrypt_bytes(&self, message: &str) -> (r: Vec<u8>)
        requires
            self.wf(),
        ensures
            r@.len() == 68 * message@.len(),
            le_ints(r@).len() == 17 * message@.len(),
            forall|i: int|
                0 <= i < message@.len() ==> encrypted_chunk_ok(
                    self.key@,
                    self.modulo as int,
                    self.add as int,
                    message@[i],
                    #[trigger] le_ints(r@).subrange(17 * i, 17 * i + 17),
                ),
    {
        proof {
            crate::keys::lemma_add_range(self.modulo as int);
        }
        let n = message.unicode_len();
        let mut out: Vec<u8> = Vec::new();
        let ghost mut written: Seq<i32> = Seq::empty();
        let mut rng = fresh_rng();
        let mut i: usize = 0;
        while i < n
            invariant
                self.wf(),
                9 <= self.add <= 99,
                n == message@.len(),
                i <= n,
                written.len() == 17 * i,
                out@ == ints_le_bytes(written),
                out@.len() == 68 * i,
                forall|i2: int|
                    0 <= i2 < i ==> encrypted_chunk_ok(
                        self.key@,
                        self.modulo as int,
                        self.add as int,
                        message@[i2],
                        #[trigger] written.subrange(17 * i2, 17 * i2 + 17),
                    ),
            decreases n - i,
        {
            let c = message.get_char(i);
            let mut chunk: Vec<i32> = Vec::new();
            let mut z: usize = 0;
            while z < 17
                invariant
                    z <= 17,
                    chunk@.len() == z,
                    forall|k: int| 0 <= k < z ==> #[trigger] chunk@[k] == 0,
                decreases 17 - z,
            {
                chunk.push(0);
                z += 1;
            }
            let reps = random_range_i32(&mut rng, 2, 5);
            let ghost mut rows: Seq<int> = Seq::empty();
            let mut t: i32 = 0;
            while t < reps
                invariant
                    self.wf(),
                    2 <= reps < 5,
                    0 <= t <= reps,
                    rows.len() == t,
                    forall|j: int| 0 <= j < rows.len() ==> 0 <= #[trigger] rows[j] < 160,
                    chunk@.len() == 17,
                    forall|k: int|
                        0 <= k < 17 ==> #[trigger] chunk@[k] == row_sum_at(self.key@, rows, k),
                    forall|k: int| 0 <= k < 16 ==> -4096 * t <= #[trigger] chunk@[k] <= 4096 * t,
                    0 <= chunk@[16] <= 111206399 * t,
                decreases reps - t,
            {
                let idx = random_range_i32(&mut rng, 0, 160) as usize;
                let base: usize = idx * 17;
                let ghost old_chunk = chunk@;
                let ghost old_rows = rows;
                let mut k: usize = 0;
                while k < 17
                    invariant
                        self.wf(),
                        idx < 160,
                        base == 17 * idx,
                        k <= 17,
                        t < reps < 5,
                        0 <= t,
                        chunk@.len() == 17,
                        forall|k2: int|
                            0 <= k2 < k ==> #[trigger] chunk@[k2] == old_chunk[k2] + self.key@[17
                                * idx + k2],
                        forall|k2: int| k <= k2 < 17 ==> #[trigger] chunk@[k2] == old_chunk[k2],
                        forall|k2: int| 0 <= k2 < 16 ==> -4096 * t <= #[trigger] old_chunk[k2]
                            <= 4096 * t,
                        0 <= old_chunk[16] <= 111206399 * t,
                    decreases 17 - k,
                {
                    proof {
                        crate::keys::lemma_row_index_mod(idx as int, k as int);
                        assert(17 * idx + k < 2890);
                    }
                    chunk[k] = chunk[k] + self.key[base + k];
                    k += 1;
                }
                proof {
                    rows = rows.push(idx as int);
                    assert(rows.drop_last() =~= old_rows);
                    assert forall|k2: int| 0 <= k2 < 17 implies #[trigger] chunk@[k2]
                        == row_sum_at(self.key@, rows, k2) by {
                        assert(chunk@[k2] == old_chunk[k2] + self.key@[17 * idx + k2]);
                    }
                    assert forall|k2: int| 0 <= k2 < 16 implies -4096 * (t + 1)
                        <= #[trigger] chunk@[k2] <= 4096 * (t + 1) by {
                        crate::keys::lemma_row_index_mod(idx as int, k2);
                    }
                    assert(0 <= chunk@[16] <= 111206399 * (t + 1)) by {
                        crate::keys::lemma_row_index_mod(idx as int, 16);
                    }
                }
                t += 1;
            }
            let cu: u32 = c as u32;
            proof {
                vstd::utf8::char_is_scalar(c);
                assert(cu <= 1114111);
                assert(cu * self.add <= 1114111 * 99) by (nonlinear_arith)
                    requires
                        cu <= 1114111,
                        0 <= self.add <= 99,
                ;
            }
            let char_num: i32 = (cu as i32) * self.add;
            let folded = modulus(chunk[16] + char_num, self.modulo);
            chunk[16] = folded;
            let ghost chunkseq = chunk@;
            let ghost prev_written = written;
            let mut k2: usize = 0;
            while k2 < 17
                invariant
                    k2 <= 17,
                    chunk@ == chunkseq,
                    chunkseq.len() == 17,
                    written == prev_written + chunkseq.take(k2 as int),
                    out@ == ints_le_bytes(written),
                    out@.len() == 68 * i + 4 * k2,
                decreases 17 - k2,
            {
                push_i32_le(&mut out, chunk[k2]);
                proof {
                    let w2 = prev_written + chunkseq.take(k2 as int + 1);
                    assert(w2.drop_last() =~= written);
                    assert(w2.last() == chunkseq[k2 as int]);
                    written = w2;
                }
                k2 += 1;
            }
            proof {
                assert(written =~= prev_written + chunkseq);
                assert(rows_ok(rows));
                assert(chunk_from_rows(
                    self.key@,
                    self.modulo as int,
                    self.add as int,
                    rows,
                    c,
                    chunkseq,
                ));
                assert(written.subrange(17 * i as int, 17 * i as int + 17) =~= chunkseq);
                assert forall|i2: int| 0 <= i2 < i implies encrypted_chunk_ok(
                    self.key@,
                    self.modulo as int,
                    self.add as int,
                    message@[i2],
                    #[trigger] written.subrange(17 * i2, 17 * i2 + 17),
                ) by {
                    assert(written.subrange(17 * i2, 17 * i2 + 17) =~= prev_written.subrange(
                        17 * i2,
                        17 * i2 + 17,
                    ));
                }
            }
            i += 1;
        }
        proof {
            crate::bytes::lemma_le_ints_of_ints_le_bytes(written);
        }
        out
    }

    /// Serializes the key to its fixed 11572-byte layout: `modulo`, the
    /// 2890 key words, `add` and `dim`, each as four little-endian bytes.
    pub fn to_bytes(&self) -> (r: Vec<u8>)
        requires
            self.key@.len() == 2890,
        ensures
            r@.len() == 11572,
            r@ == ints_le_bytes(self.field_ints()),
            le_ints(r@) == self.field_ints(),
    {
        let mut out: Vec<u8> = Vec::new();
        push_i32_le(&mut out, self.modulo);
        proof {
            let w = seq![self.modulo] + self.key@.take(0);
            assert(w.drop_last() =~= Seq::<i32>::empty());
            assert(ints_le_bytes(Seq::<i32>::empty()) =~= Seq::<u8>::empty());
            assert(w.last() == self.modulo);
            assert(out@ =~= ints_le_bytes(w));
        }
        let mut j: usize = 0;
        while j < 2890
            invariant
                j <= 2890,
                self.key@.len() == 2890,
                out@ == ints_le_bytes(seq![self.modulo] + self.key@.take(j as int)),
                out@.len() == 4 + 4 * j,
            decreases 2890 - j,
        {
            push_i32_le(&mut out, self.key[j]);
            proof {
                let w2 = seq![self.modulo] + self.key@.take(j as int + 1);
                assert(w2.drop_last() =~= seq![self.modulo] + self.key@.take(j as int));
                assert(w2.last() == self.key@[j as int]);
            }
            j += 1;
        }
        push_i32_le(&mut out, self.add);
        push_i32_le(&mut out, self.dim);
        proof {
            let w0 = seq![self.modulo] + self.key@.take(2890);
            let w1 = seq![self.modulo] + self.key@ + seq![self.add];
            assert(self.key@.take(2890) =~= self.key@);
            assert(w1.drop_last() =~= w0);
            assert(w1.last() == self.add);
            assert(self.field_ints().drop_last() =~= w1);
            assert(self.field_ints().last() == self.dim);
            assert(ints_le_bytes(w1) =~= ints_le_bytes(w0) + i32_le_bytes(self.add));
            assert(ints_le_bytes(self.field_ints()) =~= ints_le_bytes(w1) + i32_le_bytes(
                self.dim,
            ));
            assert(out@ =~= ints_le_bytes(self.field_ints()));
            crate::bytes::lemma_le_ints_of_ints_le_bytes(self.field_ints());
        }
        out
    }

    /// Deserializes a key from the fixed layout; any 11572-byte buffer is
    /// accepted, any other length is reported as invalid.
    pub fn from_bytes(bytes: Vec<u8>) -> (r: Result<Self, Error>)
        ensures
            r is Ok <==> bytes@.len() == 11572,
            r matches Ok(p) ==> p.key@.len() == 2890 && p.field_ints() == le_ints(bytes@),
            r matches Err(e) ==> e == Error::InvalidLength,
    {
        if bytes.len() != 11572 {
            return Err(Error::InvalidLength);
        }
        let modulo = read_i32_le(&bytes, 0);
        let mut key: Vec<i32> = Vec::new();
        let mut j: usize = 0;
        while j < 2890
            invariant
                j <= 2890,
                bytes@.len() == 11572,
                key@.len() == j,
                forall|j2: int|
                    0 <= j2 < j ==> #[trigger] key@[j2] == i32_from_le_at(bytes@, 4 + 4 * j2),
            decreases 2890 - j,
        {
            key.push(read_i32_le(&bytes, 4 + 4 * j));
            j += 1;
        }
        let addv = read_i32_le(&bytes, 11564);
        let dim = read_i32_le(&bytes, 11568);
        let p = Self { modulo, key, add: addv, dim };
        proof {
            assert(p.field_ints() =~= le_ints(bytes@));
        }
        Ok(p)
    }

    /// The base64 text of the serialized key.
    pub fn to_b64(&self) -> (r: String)
        requires
            self.key@.len() == 2890,
        ensures
            r@ == b64_encoding(ints_le_bytes(self.field_ints())),
            b64_decoding(r@) == Some(ints_le_bytes(self.field_ints())),
    {
        let b = self.to_bytes();
        b64_encode(&b)
    }

    /// Reads a key back from base64 text of its serialized layout.
    pub fn from_b64(base64_str: String) -> (r: Result<Self, Error>)
        ensures
            b64_decoding(base64_str@) is None <==> r == Err::<Public, Error>(Error::InvalidBase64),
            b64_decoding(base64_str@) matches Some(bs) ==> (r is Ok <==> bs.len() == 11572),
            b64_decoding(base64_str@) matches Some(bs) ==> (r matches Ok(p) ==> p.key@.len()
                == 2890 && p.field_ints() == le_ints(bs)),
            b64_decoding(base64_str@) matches Some(bs) && bs.len() != 11572 ==> r == Err::<
                Public,
                Error,
            >(Error::InvalidLength),
    {
        match b64_decode(base64_str.as_str()) {
            None => Err(Error::InvalidBase64),
            Some(v) => Self::from_bytes(v),
        }
    }

    /// Encrypts `message` and wraps the ciphertext bytes in standard
    /// base64, as the textual transport expects them.
    pub fn encrypt(&self, message: &str) -> (r: String)
        requires
            self.wf(),
        ensures
            b64_decoding(r@) is Some,
            b64_decoding(r@)->Some_0.len() == 68 * message@.len(),
            forall|i: int|
                0 <= i < message@.len() ==> encrypted_chunk_ok(
                    self.key@,
                    self.modulo as int,
                    self.add as int,
                    message@[i],
                    #[trigger] le_ints(b64_decoding(r@)->Some_0).subrange(17 * i, 17 * i + 17),
                ),
    {
        let bytes = self.encrypt_bytes(message);
        b64_encode(&bytes)
    }
}

/// Serialization loses nothing: two public keys with the same serialized
/// word sequence agree field for field, so deserializing a serialized key
/// reproduces it exactly.
pub proof fn lemma_public_serialization_round_trip(p1: Public, p2: Public)
    requires
        p1.key@.len() == 2890,
        p2.key@.len() == 2890,
        p1.field_ints() == p2.field_ints(),
    ensures
        p1.modulo == p2.modulo,
        p1.key@ == p2.key@,
        p1.add == p2.add,
        p1.dim == p2.dim,
{
    assert(p1.field_ints()[0] == p1.modulo && p2.field_ints()[0] == p2.modulo);
    assert forall|j: int| 0 <= j < 2890 implies p1.key@[j] == p2.key@[j] by {
        assert(p1.field_ints()[1 + j] == p1.key@[j] && p2.field_ints()[1 + j] == p2.key@[j]);
    }
    assert(p1.key@ =~= p2.key@);
    assert(p1.field_ints()[2891] == p1.add && p2.field_ints()[2891] == p2.add);
    assert(p1.field_ints()[2892] == p1.dim && p2.field_ints()[2892] == p2.dim);
}

} // verus!
