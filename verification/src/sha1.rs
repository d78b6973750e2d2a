use vstd::prelude::*;
use vstd::string::StrSliceExecFns;
use vstd::string::StringSliceAdditionalSpecFns;
use vstd::arithmetic::div_mod::lemma_mod_multiples_vanish;
use crate::text::bytes_hex;
use crate::text::push_bytes_hex;

verus! {

/// The largest total message length, in bytes, this implementation
/// accepts: it keeps the 32-bit running length from overflowing once the
/// final padding is appended.
pub open spec fn sha1_max_len() -> nat {
    0xF000_0000
}

/// The initial hash state.
pub open spec fn sha1_init() -> (u32, u32, u32, u32, u32) {
    (0x6745_2301u32, 0xEFCD_AB89u32, 0x98BA_DCFEu32, 0x1032_5476u32, 0xC3D2_E1F0u32)
}

/// Left rotation of a 32-bit word.
pub open spec fn rotl(x: u32, n: u32) -> u32
    recommends
        0 < n < 32,
{
    (x << n) | (x >> ((32 - n) as u32))
}

/// The big-endian 32-bit word starting at byte `4 * i` of the chunk.
pub open spec fn be_word(c: Seq<u8>, i: int) -> u32
    recommends
        0 <= i < 16,
        c.len() == 64,
{
    (((c[4 * i] as u32) << 24) | ((c[4 * i + 1] as u32) << 16) | ((c[4 * i + 2] as u32) << 8) | (
    c[4 * i + 3] as u32)) as u32
}

/// The message schedule: the first sixteen words come from the chunk,
/// the rest from the rotated exclusive-or recurrence.
pub open spec fn sha1_w(c: Seq<u8>, i: int) -> u32
    decreases i,
{
    if i < 16 {
        be_word(c, i)
    } else {
        rotl(sha1_w(c, i - 3) ^ sha1_w(c, i - 8) ^ sha1_w(c, i - 14) ^ sha1_w(c, i - 16), 1)
    }
}

/// The round function for round `i`.
pub open spec fn sha1_f(i: int, b: u32, c: u32, d: u32) -> u32 {
    if i <= 19 {
        (b & c) | ((!b) & d)
    } else if i <= 39 {
        b ^ c ^ d
    } else if i <= 59 {
        (b & c) | (b & d) | (c & d)
    } else {
        b ^ c ^ d
    }
}

/// The round constant for round `i`.
pub open spec fn sha1_k(i: int) -> u32 {
    if i <= 19 {
        0x5A82_7999u32
    } else if i <= 39 {
        0x6ED9_EBA1u32
    } else if i <= 59 {
        0x8F1B_BCDCu32
    } else {
        0xCA62_C1D6u32
    }
}

/// Reduction modulo two to the thirty-second power.
pub open spec fn mask32(x: int) -> u32 {
    (x % 0x1_0000_0000) as u32
}

/// The working state after the first `i` rounds on a chunk.
pub open spec fn sha1_rounds(c: Seq<u8>, i: int, st: (u32, u32, u32, u32, u32)) -> (
    u32,
    u32,
    u32,
    u32,
    u32,
)
    decreases i,
{
    if i <= 0 {
        st
    } else {
        let prev = sha1_rounds(c, i - 1, st);
        let temp = mask32(
            rotl(prev.0, 5) as int + sha1_f(i - 1, prev.1, prev.2, prev.3) as int + prev.4 as int
                + sha1_k(i - 1) as int + sha1_w(c, i - 1) as int,
        );
        (temp, prev.0, rotl(prev.1, 30), prev.2, prev.3)
    }
}

/// The hash state after absorbing one 64-byte chunk.
pub open spec fn sha1_chunk_update(h: (u32, u32, u32, u32, u32), c: Seq<u8>) -> (
    u32,
    u32,
    u32,
    u32,
    u32,
) {
    let st = sha1_rounds(c, 80, h);
    (
        mask32(h.0 as int + st.0 as int),
        mask32(h.1 as int + st.1 as int),
        mask32(h.2 as int + st.2 as int),
        mask32(h.3 as int + st.3 as int),
        mask32(h.4 as int + st.4 as int),
    )
}

/// The hash state after absorbing every whole chunk of `data`, front to
/// back.
pub open spec fn sha1_chunks(h: (u32, u32, u32, u32, u32), data: Seq<u8>) -> (
    u32,
    u32,
    u32,
    u32,
    u32,
)
    decreases data.len(),
{
    if data.len() < 64 {
        h
    } else {
        sha1_chunks(sha1_chunk_update(h, data.subrange(0, 64)), data.subrange(64, data.len() as int))
    }
}

/// How many zero bytes the padding inserts for a message of `len` bytes.
pub open spec fn sha1_pad_zeros(len: nat) -> nat {
    ((120 - ((len + 1) % 64)) % 64) as nat
}

/// The big-endian bytes of a 64-bit value.
pub open spec fn be64(x: u64) -> Seq<u8> {
    seq![
        (x >> 56) as u8,
        (x >> 48) as u8,
        (x >> 40) as u8,
        (x >> 32) as u8,
        (x >> 24) as u8,
        (x >> 16) as u8,
        (x >> 8) as u8,
        x as u8,
    ]
}

/// The big-endian bytes of a 32-bit value.
pub open spec fn be32(x: u32) -> Seq<u8> {
    seq![(x >> 24) as u8, (x >> 16) as u8, (x >> 8) as u8, x as u8]
}

/// The padding appended to a message of `len` bytes: a `0x80` byte, zeros
/// up to fifty-six modulo sixty-four, then the bit length in big-endian.
pub open spec fn sha1_pad(len: nat) -> Seq<u8> {
    seq![0x80u8] + Seq::new(sha1_pad_zeros(len), |j: int| 0u8) + be64(((len * 8) as u64))
}

/// The SHA-1 digest of a message: pad it, absorb every chunk, and emit
/// the five state words in big-endian order.
pub open spec fn spec_sha1(msg: Seq<u8>) -> Seq<u8> {
    let hf = sha1_chunks(sha1_init(), msg + sha1_pad(msg.len()));
    be32(hf.0) + be32(hf.1) + be32(hf.2) + be32(hf.3) + be32(hf.4)
}

/// Absorbing one more whole chunk after a block-aligned prefix.
proof fn lemma_chunks_snoc(h: (u32, u32, u32, u32, u32), p: Seq<u8>, c: Seq<u8>)
    requires
        p.len() % 64 == 0,
        c.len() == 64,
    ensures
        sha1_chunks(h, p + c) == sha1_chunk_update(sha1_chunks(h, p), c),
    decreases p.len(),
{
    if p.len() == 0 {
        assert((p + c).len() == 64);
        assert((p + c).subrange(0, 64) =~= c);
        assert((p + c).subrange(64, (p + c).len() as int) =~= Seq::<u8>::empty());
        let h2 = sha1_chunk_update(h, c);
        assert(sha1_chunks(h2, Seq::<u8>::empty()) == h2);
        assert(sha1_chunks(h, p) == h);
    } else {
        let first = p.subrange(0, 64);
        let rest = p.subrange(64, p.len() as int);
        assert((p + c).subrange(0, 64) =~= first);
        assert((p + c).subrange(64, (p + c).len() as int) =~= rest + c);
        lemma_chunks_snoc(sha1_chunk_update(h, first), rest, c);
    }
}

/// A SHA-1 computation in progress: the running state, the total length
/// absorbed so far, and the bytes not yet grouped into a whole chunk.
pub struct Sha1 {
    h0: u32,
    h1: u32,
    h2: u32,
    h3: u32,
    h4: u32,
    message_length: u32,
    pending: Vec<u8>,
    processed: Ghost<Seq<u8>>,
}

impl Sha1 {
    /// Every byte fed so far, in order.
    pub closed spec fn fed(&self) -> Seq<u8> {
        self.processed@ + self.pending@
    }

    /// The state invariant: whole chunks absorbed, the rest pending.
    pub closed spec fn wf(&self) -> bool {
        &&& self.processed@.len() % 64 == 0
        &&& self.message_length == self.processed@.len()
        &&& self.pending@.len() < 64
        &&& (self.h0, self.h1, self.h2, self.h3, self.h4) == sha1_chunks(
            sha1_init(),
            self.processed@,
        )
        &&& self.fed().len() <= sha1_max_len()
    }

    /// Creates a fresh state.
    pub fn new() -> (r: Sha1)
        ensures
            r.wf(),
            r.fed() == Seq::<u8>::empty(),
    {
        let r = Sha1 {
            h0: 0x6745_2301,
            h1: 0xEFCD_AB89,
            h2: 0x98BA_DCFE,
            h3: 0x1032_5476,
            h4: 0xC3D2_E1F0,
            message_length: 0,
            pending: Vec::new(),
            processed: Ghost(Seq::empty()),
        };
        proof {
            assert(r.fed() =~= Seq::<u8>::empty());
        }
        r
    }

    /// Feeds the bytes of a string into the state.
    pub fn update_str(&mut self, data: &str)
        requires
            old(self).wf(),
            old(self).fed().len() + data.spec_bytes().len() <= sha1_max_len(),
        ensures
            final(self).wf(),
            final(self).fed() == old(self).fed() + data.spec_bytes(),
    {
        let bytes = data.as_bytes_vec();
        self.update(&bytes);
    }

    /// Feeds bytes into the state, absorbing every whole chunk.
    pub fn update(&mut self, data: &Vec<u8>)
        requires
            old(self).wf(),
            old(self).fed().len() + data@.len() <= sha1_max_len(),
        ensures
            final(self).wf(),
            final(self).fed() == old(self).fed() + data@,
    {
        let n = data.len();
        for i in 0..n
            invariant
                n == data@.len(),
                self.pending@ == old(self).pending@ + data@.subrange(0, i as int),
                self.processed == old(self).processed,
                self.message_length == old(self).message_length,
                self.h0 == old(self).h0,
                self.h1 == old(self).h1,
                self.h2 == old(self).h2,
                self.h3 == old(self).h3,
                self.h4 == old(self).h4,
                old(self).fed().len() + data@.len() <= sha1_max_len(),
        {
            self.pending.push(data[i]);
            proof {
                assert(self.pending@ =~= old(self).pending@ + data@.subrange(0, i + 1));
            }
        }
        proof {
            assert(old(self).pending@ + data@.subrange(0, n as int) =~= old(self).pending@
                + data@);
            assert(self.fed() =~= old(self).fed() + data@);
        }
        self.consume_pending();
    }

    /// Takes the first 64 pending bytes as a chunk, leaving the rest.
    fn take_chunk(&mut self) -> (r: Vec<u8>)
        requires
            old(self).pending@.len() >= 64,
        ensures
            r@ == old(self).pending@.subrange(0, 64),
            final(self).pending@ == old(self).pending@.subrange(64, old(self).pending@.len() as int),
            final(self).processed == old(self).processed,
            final(self).message_length == old(self).message_length,
            final(self).h0 == old(self).h0,
            final(self).h1 == old(self).h1,
            final(self).h2 == old(self).h2,
            final(self).h3 == old(self).h3,
            final(self).h4 == old(self).h4,
    {
        let mut chunk: Vec<u8> = Vec::new();
        for i in 0..64usize
            invariant
                old(self).pending@.len() >= 64,
                self == old(self),
                chunk@ == old(self).pending@.subrange(0, i as int),
        {
            chunk.push(self.pending[i]);
            proof {
                assert(chunk@ =~= old(self).pending@.subrange(0, i + 1));
            }
        }
        let n = self.pending.len();
        let mut rest: Vec<u8> = Vec::new();
        for i in 64..n
            invariant
                n == self.pending@.len(),
                self == old(self),
                rest@ == old(self).pending@.subrange(64, i as int),
        {
            rest.push(self.pending[i]);
            proof {
                assert(rest@ =~= old(self).pending@.subrange(64, i + 1));
            }
        }
        self.pending = rest;
        chunk
    }

    /// Absorbs whole chunks while at least 64 bytes are pending.
    fn consume_pending(&mut self)
        requires
            old(self).processed@.len() % 64 == 0,
            old(self).message_length == old(self).processed@.len(),
            (old(self).h0, old(self).h1, old(self).h2, old(self).h3, old(self).h4)
                == sha1_chunks(sha1_init(), old(self).processed@),
            old(self).fed().len() <= sha1_max_len() + 128,
        ensures
            final(self).wf() || final(self).fed().len() > sha1_max_len(),
            final(self).processed@.len() % 64 == 0,
            final(self).message_length == final(self).processed@.len(),
            final(self).pending@.len() < 64,
            (final(self).h0, final(self).h1, final(self).h2, final(self).h3, final(self).h4)
                == sha1_chunks(sha1_init(), final(self).processed@),
            final(self).fed() == old(self).fed(),
    {
        loop
            invariant
                self.processed@.len() % 64 == 0,
                self.message_length == self.processed@.len(),
                (self.h0, self.h1, self.h2, self.h3, self.h4) == sha1_chunks(
                    sha1_init(),
                    self.processed@,
                ),
                self.fed() == old(self).fed(),
                self.fed().len() <= sha1_max_len() + 128,
            ensures
                self.pending@.len() < 64,
                self.processed@.len() % 64 == 0,
                self.message_length == self.processed@.len(),
                (self.h0, self.h1, self.h2, self.h3, self.h4) == sha1_chunks(
                    sha1_init(),
                    self.processed@,
                ),
                self.fed() == old(self).fed(),
            decreases self.pending@.len(),
        {
            if self.pending.len() < 64 {
                break;
            }
            let ghost pre = *self;
            let chunk = self.take_chunk();
            self.process_chunk(&chunk);
            self.message_length = self.message_length + 64;
            proof {
                self.processed@ = pre.processed@ + chunk@;
            }
            proof {
                lemma_chunks_snoc(sha1_init(), pre.processed@, chunk@);
                assert(self.fed() =~= pre.fed());
            }
        }
    }

    /// Runs the eighty rounds of one chunk and folds the result into the
    /// running state.
    fn process_chunk(&mut self, chunk: &Vec<u8>)
        requires
            chunk@.len() == 64,
        ensures
            (final(self).h0, final(self).h1, final(self).h2, final(self).h3, final(self).h4)
                == sha1_chunk_update(
                (old(self).h0, old(self).h1, old(self).h2, old(self).h3, old(self).h4),
                chunk@,
            ),
            final(self).pending == old(self).pending,
            final(self).processed == old(self).processed,
            final(self).message_length == old(self).message_length,
    {
        let mut words: Vec<u32> = Vec::new();
        for i in 0..80usize
            invariant
                words@.len() == i,
        {
            words.push(0);
        }
        for i in 0..16usize
            invariant
                chunk@.len() == 64,
                words@.len() == 80,
                forall|j: int| 0 <= j < i ==> #[trigger] words@[j] == sha1_w(chunk@, j),
        {
            let b0 = chunk[4 * i];
            let b1 = chunk[4 * i + 1];
            let b2 = chunk[4 * i + 2];
            let b3 = chunk[4 * i + 3];
            let w: u32 = ((b0 as u32) << 24) | ((b1 as u32) << 16) | ((b2 as u32) << 8) | (
            b3 as u32);
            words.set(i, w);
        }
        for i in 16..80usize
            invariant
                chunk@.len() == 64,
                words@.len() == 80,
                forall|j: int| 0 <= j < i ==> #[trigger] words@[j] == sha1_w(chunk@, j),
        {
            let x = words[i - 3] ^ words[i - 8] ^ words[i - 14] ^ words[i - 16];
            let w: u32 = (x << 1u32) | (x >> 31u32);
            words.set(i, w);
        }
        let ghost h_in = (self.h0, self.h1, self.h2, self.h3, self.h4);
        let mut a = self.h0;
        let mut b = self.h1;
        let mut c = self.h2;
        let mut d = self.h3;
        let mut e = self.h4;
        for i in 0..80usize
            invariant
                chunk@.len() == 64,
                words@.len() == 80,
                forall|j: int| 0 <= j < 80 ==> #[trigger] words@[j] == sha1_w(chunk@, j),
                (a, b, c, d, e) == sha1_rounds(chunk@, i as int, h_in),
        {
            let f: u32 = if i <= 19 {
                (b & c) | ((!b) & d)
            } else if i <= 39 {
                b ^ c ^ d
            } else if i <= 59 {
                (b & c) | (b & d) | (c & d)
            } else {
                b ^ c ^ d
            };
            let k: u32 = if i <= 19 {
                0x5A82_7999
            } else if i <= 39 {
                0x6ED9_EBA1
            } else if i <= 59 {
                0x8F1B_BCDC
            } else {
                0xCA62_C1D6
            };
            let rot_a: u32 = (a << 5u32) | (a >> 27u32);
            let sum: u64 = rot_a as u64 + f as u64 + e as u64 + k as u64 + words[i] as u64;
            let temp: u32 = (sum % 0x1_0000_0000) as u32;
            e = d;
            d = c;
            c = (b << 30u32) | (b >> 2u32);
            b = a;
            a = temp;
        }
        self.h0 = ((self.h0 as u64 + a as u64) % 0x1_0000_0000) as u32;
        self.h1 = ((self.h1 as u64 + b as u64) % 0x1_0000_0000) as u32;
        self.h2 = ((self.h2 as u64 + c as u64) % 0x1_0000_0000) as u32;
        self.h3 = ((self.h3 as u64 + d as u64) % 0x1_0000_0000) as u32;
        self.h4 = ((self.h4 as u64 + e as u64) % 0x1_0000_0000) as u32;
    }

    /// Pads the absorbed message and returns its twenty digest bytes.
    /// The state is consumed: it is not fit for further updates.
    #[verifier::rlimit(100)]
    pub fn digest(&mut self) -> (r: Vec<u8>)
        requires
            old(self).wf(),
        ensures
            r@ == spec_sha1(old(self).fed()),
            r@.len() == 20,
    {
        let ghost msg = self.fed();
        let ghost pre = *self;
        let total = self.message_length as u64 + self.pending.len() as u64;
        let rem: usize = ((self.pending.len() % 64) + 1) % 64;
        let z: usize = if rem <= 56 {
            56 - rem
        } else {
            120 - rem
        };
        proof {
            lemma_mod_multiples_vanish(
                pre.processed@.len() as int / 64,
                pre.pending@.len() as int + 1,
                64,
            );
            assert((msg.len() + 1) % 64 == (pre.pending@.len() + 1) % 64);
            assert(z == sha1_pad_zeros(msg.len()));
        }
        self.pending.push(0x80);
        for i in 0..z
            invariant
                z < 64,
                self.pending@ == pre.pending@ + seq![0x80u8] + Seq::new(i as nat, |j: int| 0u8),
                self.processed == pre.processed,
                self.message_length == pre.message_length,
                self.h0 == pre.h0,
                self.h1 == pre.h1,
                self.h2 == pre.h2,
                self.h3 == pre.h3,
                self.h4 == pre.h4,
        {
            self.pending.push(0x00);
            proof {
                assert(self.pending@ =~= pre.pending@ + seq![0x80u8] + Seq::new(
                    (i + 1) as nat,
                    |j: int| 0u8,
                ));
            }
        }
        let bits: u64 = total * 8;
        self.pending.push((bits >> 56) as u8);
        self.pending.push((bits >> 48) as u8);
        self.pending.push((bits >> 40) as u8);
        self.pending.push((bits >> 32) as u8);
        self.pending.push((bits >> 24) as u8);
        self.pending.push((bits >> 16) as u8);
        self.pending.push((bits >> 8) as u8);
        self.pending.push(bits as u8);
        proof {
            assert(self.pending@ =~= pre.pending@ + sha1_pad(msg.len()));
            assert(self.fed() =~= msg + sha1_pad(msg.len()));
        }
        self.consume_pending();
        proof {
            assert((msg + sha1_pad(msg.len())).len() % 64 == 0) by {
                assert(sha1_pad(msg.len()).len() == 9 + sha1_pad_zeros(msg.len()));
            }
            assert(self.pending@.len() == 0) by {
                assert(self.fed().len() == self.processed@.len() + self.pending@.len());
            }
            assert(self.processed@ =~= msg + sha1_pad(msg.len()));
        }
        let mut out: Vec<u8> = Vec::new();
        out.push((self.h0 >> 24) as u8);
        out.push((self.h0 >> 16) as u8);
        out.push((self.h0 >> 8) as u8);
        out.push(self.h0 as u8);
        out.push((self.h1 >> 24) as u8);
        out.push((self.h1 >> 16) as u8);
        out.push((self.h1 >> 8) as u8);
        out.push(self.h1 as u8);
        out.push((self.h2 >> 24) as u8);
        out.push((self.h2 >> 16) as u8);
        out.push((self.h2 >> 8) as u8);
        out.push(self.h2 as u8);
        out.push((self.h3 >> 24) as u8);
        out.push((self.h3 >> 16) as u8);
        out.push((self.h3 >> 8) as u8);
        out.push(self.h3 as u8);
        out.push((self.h4 >> 24) as u8);
        out.push((self.h4 >> 16) as u8);
        out.push((self.h4 >> 8) as u8);
        out.push(self.h4 as u8);
        proof {
            assert(out@ =~= spec_sha1(msg));
        }
        out
    }

    /// The digest as a lowercase hexadecimal string.
    pub fn hex_digest(&mut self) -> (r: String)
        requires
            old(self).wf(),
        ensures
            r@ == bytes_hex(spec_sha1(old(self).fed())),
    {
        let bytes = self.digest();
        let mut s = String::new();
        push_bytes_hex(&mut s, &bytes);
        s
    }
}

/// Hashes a string and returns the digest as a hexadecimal string.
pub fn sha1_str_as_str(string: &str) -> (r: String)
    requires
        string.spec_bytes().len() <= sha1_max_len(),
    ensures
        r@ == bytes_hex(spec_sha1(string.spec_bytes())),
{
    let mut sha = Sha1::new();
    sha.update_str(string);
    sha.hex_digest()
}

/// Hashes a string and returns the twenty digest bytes.
pub fn sha1_str_as_bytes(string: &str) -> (r: Vec<u8>)
    requires
        string.spec_bytes().len() <= sha1_max_len(),
    ensures
        r@ == spec_sha1(string.spec_bytes()),
        r@.len() == 20,
{
    let mut sha = Sha1::new();
    sha.update_str(string);
    sha.digest()
}

/// Hashes raw bytes and returns the twenty digest bytes.
pub fn sha1_bytes_as_bytes(bytes: &Vec<u8>) -> (r: Vec<u8>)
    requires
        bytes@.len() <= sha1_max_len(),
    ensures
        r@ == spec_sha1(bytes@),
        r@.len() == 20,
{
    let mut sha = Sha1::new();
    sha.update(bytes);
    sha.digest()
}

} // verus!
