//! A streaming Keccak-256 sponge that can be reset and used again.
//!
//! The sponge keeps its 1600-bit state as 200 bytes, the little-endian image of
//! the 25 lanes that the permutation works on. Everything but the permutation
//! itself is verified here: absorbing, padding, squeezing and the reset.

use vstd::prelude::*;

verus! {

/// Bytes of sponge state.
pub const STATE_BYTES: usize = 200;

/// Bytes absorbed between two permutations (the rate of Keccak-256).
pub const RATE: usize = 136;

/// Bytes of a digest.
pub const DIGEST_BYTES: usize = 32;

/// Domain separation byte of the Keccak padding (SHA-3 uses another).
pub const DELIM: u8 = 0x01;

/// The value that `tiny_keccak::keccakf` leaves in its 25-lane argument:
/// Keccak-f[1600] applied to `lanes`.
pub uninterp spec fn keccak_f1600(lanes: Seq<u64>) -> Seq<u64>;

/// Calls `tiny_keccak::keccakf`, which permutes the 25 lanes in place. The
/// contract only names the outcome: the lanes afterwards are `keccak_f1600` of
/// the lanes before.
#[verifier::external_body]
fn keccakf(lanes: &mut [u64; 25])
    ensures
        final(lanes)@ == keccak_f1600(old(lanes)@),
{
    tiny_keccak::keccakf(lanes)
}

/// Lane `i` of a byte state: eight bytes read as a little-endian word.
pub open spec fn lane_of(bytes: Seq<u8>, i: int) -> u64 {
    (bytes[8 * i] as u64) | (bytes[8 * i + 1] as u64) << 8 | (bytes[8 * i + 2] as u64) << 16 | (
    bytes[8 * i + 3] as u64) << 24 | (bytes[8 * i + 4] as u64) << 32 | (bytes[8 * i + 5] as u64)
        << 40 | (bytes[8 * i + 6] as u64) << 48 | (bytes[8 * i + 7] as u64) << 56
}

/// Byte `j` (0 is the least significant) of a lane.
pub open spec fn byte_of(lane: u64, j: int) -> u8 {
    ((lane >> ((8 * j) as u64)) & 0xff) as u8
}

/// The 25 lanes of a 200-byte state.
pub open spec fn to_lanes(bytes: Seq<u8>) -> Seq<u64> {
    Seq::new(25, |i: int| lane_of(bytes, i))
}

/// The 200 bytes of a 25-lane state.
pub open spec fn from_lanes(lanes: Seq<u64>) -> Seq<u8> {
    Seq::new(200, |i: int| byte_of(lanes[i / 8], i % 8))
}

/// The permutation on a byte state.
pub open spec fn permute(bytes: Seq<u8>) -> Seq<u8> {
    from_lanes(keccak_f1600(to_lanes(bytes)))
}

/// `bytes` with `data` XORed in from position `at` on.
pub open spec fn xor_at(bytes: Seq<u8>, at: int, data: Seq<u8>) -> Seq<u8> {
    Seq::new(
        bytes.len(),
        |i: int|
            if at <= i < at + data.len() {
                bytes[i] ^ data[i - at]
            } else {
                bytes[i]
            },
    )
}

/// What a sponge stands for: the state bytes as Keccak defines them, and how
/// many bytes of the current block have been absorbed.
pub struct SpongeState {
    pub bytes: Seq<u8>,
    pub offset: nat,
}

impl SpongeState {
    /// 200 state bytes and an offset inside the block.
    pub open spec fn wf(self) -> bool {
        self.bytes.len() == STATE_BYTES && self.offset < RATE
    }

    /// The all-zero state that every hash starts from.
    pub open spec fn initial() -> SpongeState {
        SpongeState { bytes: Seq::new(STATE_BYTES as nat, |i: int| 0u8), offset: 0 }
    }
}

/// The sponge after `data` was absorbed: bytes are XORed into the block, and
/// each time the block is full the state is permuted.
pub open spec fn absorb(s: SpongeState, data: Seq<u8>) -> SpongeState
    decreases data.len(),
{
    if s.offset + data.len() < RATE || s.offset >= RATE {
        SpongeState { bytes: xor_at(s.bytes, s.offset as int, data), offset: s.offset + data.len() }
    } else {
        let k = RATE - s.offset;
        absorb(
            SpongeState { bytes: permute(xor_at(s.bytes, s.offset as int, data.take(k))), offset: 0 },
            data.skip(k),
        )
    }
}

/// The pad10*1 padding, with the Keccak domain byte, that fills a block in
/// which `offset` bytes are taken.
pub open spec fn padding(offset: nat) -> Seq<u8> {
    if offset == RATE - 1 {
        seq![0x81u8]
    } else {
        seq![0x01u8] + Seq::new((RATE - 2 - offset) as nat, |i: int| 0u8) + seq![0x80u8]
    }
}

/// The 32 bytes squeezed out of a sponge once it is padded.
pub open spec fn digest(s: SpongeState) -> Seq<u8> {
    absorb(s, padding(s.offset)).bytes.take(DIGEST_BYTES as int)
}

/// The digest of a sponge that was in state `s` and then absorbed `data`.
pub open spec fn hash_from(s: SpongeState, data: Seq<u8>) -> Seq<u8> {
    digest(absorb(s, data))
}

/// Keccak-256 of a message.
pub open spec fn keccak256(msg: Seq<u8>) -> Seq<u8> {
    hash_from(SpongeState::initial(), msg)
}

/// The state a sponge is left in by finalizing: ready for the next message.
pub open spec fn finalized(s: SpongeState) -> SpongeState {
    SpongeState::initial()
}

proof fn lemma_xor_zero(b: u8)
    ensures
        0u8 ^ b == b,
        b ^ 0u8 == b,
        (b ^ 0x01u8) ^ 0x80u8 == b ^ 0x81u8,
{
    assert(0u8 ^ b == b) by (bit_vector);
    assert(b ^ 0u8 == b) by (bit_vector);
    assert((b ^ 0x01u8) ^ 0x80u8 == b ^ 0x81u8) by (bit_vector);
}

/// Absorbing keeps a state well formed.
pub proof fn lemma_absorb_wf(s: SpongeState, data: Seq<u8>)
    requires
        s.wf(),
    ensures
        absorb(s, data).wf(),
        absorb(s, data).offset == (s.offset + data.len()) % (RATE as nat),
    decreases data.len(),
{
    if s.offset + data.len() < RATE {
    } else {
        let k = RATE - s.offset;
        let next = SpongeState {
            bytes: permute(xor_at(s.bytes, s.offset as int, data.take(k))),
            offset: 0,
        };
        lemma_absorb_wf(next, data.skip(k));
        let total: int = (s.offset + data.len()) as int;
        assert(total % 136 == (total - 136) % 136) by {
            vstd::arithmetic::div_mod::lemma_mod_add_multiples_vanish(total - 136, 136);
        }
    }
}

/// Absorbing nothing changes nothing.
pub proof fn lemma_absorb_empty(s: SpongeState)
    requires
        s.wf(),
    ensures
        absorb(s, Seq::<u8>::empty()) == s,
{
    assert(xor_at(s.bytes, s.offset as int, Seq::<u8>::empty()) =~= s.bytes);
}

/// Absorbing the bytes that fill the block XORs them in and permutes.
pub proof fn lemma_absorb_fill(s: SpongeState, data: Seq<u8>)
    requires
        s.wf(),
        s.offset + data.len() == RATE,
    ensures
        absorb(s, data) == (SpongeState {
            bytes: permute(xor_at(s.bytes, s.offset as int, data)),
            offset: 0,
        }),
{
    let k = RATE - s.offset;
    assert(data.take(k) =~= data);
    assert(data.skip(k) =~= Seq::<u8>::empty());
    let next = SpongeState { bytes: permute(xor_at(s.bytes, s.offset as int, data)), offset: 0 };
    lemma_absorb_empty(next);
}

/// Streaming: absorbing `a` and then `b` is absorbing `a + b`.
pub proof fn lemma_absorb_concat(s: SpongeState, a: Seq<u8>, b: Seq<u8>)
    requires
        s.wf(),
    ensures
        absorb(absorb(s, a), b) == absorb(s, a + b),
    decreases a.len(),
{
    let o = s.offset as int;
    if s.offset + a.len() < RATE {
        let s1 = absorb(s, a);
        if s1.offset + b.len() < RATE {
            assert(xor_at(xor_at(s.bytes, o, a), o + a.len(), b) =~= xor_at(s.bytes, o, a + b));
        } else {
            let k1 = RATE - s1.offset;
            let k = RATE - s.offset;
            assert((a + b).take(k) =~= a + b.take(k1));
            assert((a + b).skip(k) =~= b.skip(k1));
            assert(xor_at(xor_at(s.bytes, o, a), o + a.len(), b.take(k1)) =~= xor_at(
                s.bytes,
                o,
                a + b.take(k1),
            ));
        }
    } else {
        let k = RATE - s.offset;
        let next = SpongeState { bytes: permute(xor_at(s.bytes, o, a.take(k))), offset: 0 };
        assert((a + b).take(k) =~= a.take(k));
        assert((a + b).skip(k) =~= a.skip(k) + b);
        lemma_absorb_concat(next, a.skip(k), b);
    }
}

/// Keccak-256 in its textbook form: the padded message is absorbed block by
/// block into the zero state, and the first 32 state bytes are the digest.
pub proof fn lemma_keccak256_padded_message(msg: Seq<u8>)
    ensures
        keccak256(msg) == absorb(
            SpongeState::initial(),
            msg + padding(msg.len() % (RATE as nat)),
        ).bytes.take(DIGEST_BYTES as int),
{
    let s = SpongeState::initial();
    lemma_absorb_wf(s, msg);
    lemma_absorb_concat(s, msg, padding(msg.len() % (RATE as nat)));
}

/// Reset idempotence: whatever a sponge absorbed before it was finalized, the
/// next message hashes as on a fresh sponge.
pub proof fn lemma_reset_idempotence(s: SpongeState, x: Seq<u8>, y: Seq<u8>)
    ensures
        hash_from(finalized(absorb(s, x)), y) == keccak256(y),
        hash_from(finalized(s), Seq::<u8>::empty()) == keccak256(Seq::<u8>::empty()),
{
}

/// Splitting a message over several updates does not change its digest.
pub proof fn lemma_hash_from_concat(s: SpongeState, a: Seq<u8>, b: Seq<u8>)
    requires
        s.wf(),
    ensures
        hash_from(absorb(s, a), b) == hash_from(s, a + b),
{
    lemma_absorb_concat(s, a, b);
}

/// Reads lane `i` out of the state bytes.
fn load_lane(state: &[u8; 200], i: usize) -> (lane: u64)
    requires
        i < 25,
    ensures
        lane == lane_of(state@, i as int),
{
    let base: usize = 8 * i;
    (state[base] as u64) | (state[base + 1] as u64) << 8 | (state[base + 2] as u64) << 16 | (
    state[base + 3] as u64) << 24 | (state[base + 4] as u64) << 32 | (state[base + 5] as u64)
        << 40 | (state[base + 6] as u64) << 48 | (state[base + 7] as u64) << 56
}

/// Byte `j` of a lane.
fn lane_byte(lane: u64, j: usize) -> (b: u8)
    requires
        j < 8,
    ensures
        b == byte_of(lane, j as int),
{
    let shift: u64 = (8 * j) as u64;
    ((lane >> shift) & 0xff) as u8
}

/// Applies the permutation to a byte state: the bytes are gathered into lanes,
/// the lanes are permuted, and the lanes are spread over the bytes again.
fn permute_bytes(state: &mut [u8; 200])
    ensures
        final(state)@ == permute(old(state)@),
{
    let mut lanes: [u64; 25] = [0u64; 25];
    let mut i: usize = 0;
    while i < 25
        invariant
            i <= 25,
            *state == *old(state),
            forall|k: int| 0 <= k < i ==> lanes@[k] == lane_of(state@, k),
        decreases 25 - i,
    {
        lanes[i] = load_lane(state, i);
        i += 1;
    }
    assert(lanes@ =~= to_lanes(state@));
    keccakf(&mut lanes);
    let mut p: usize = 0;
    while p < 200
        invariant
            p <= 200,
            lanes@ == keccak_f1600(to_lanes(old(state)@)),
            forall|k: int| 0 <= k < p ==> state@[k] == byte_of(lanes@[k / 8], k % 8),
        decreases 200 - p,
    {
        state[p] = lane_byte(lanes[p / 8], p % 8);
        p += 1;
    }
    assert(state@ =~= from_lanes(lanes@));
}

/// Takes `data` into the state from position `at` on: written over what is
/// there when `first` is set, XORed into it otherwise.
fn absorb_into(state: &mut [u8; 200], first: bool, at: usize, data: &[u8])
    requires
        at + data@.len() <= 200,
    ensures
        forall|i: int|
            0 <= i < 200 ==> #[trigger] final(state)@[i] == if at <= i < at + data@.len() {
                Keccak256::absorb_spec(first, old(state)@[i], data@[i - at])
            } else {
                old(state)@[i]
            },
{
    let n = data.len();
    let mut i: usize = 0;
    while i < n
        invariant
            i <= n,
            n == data@.len(),
            at + n <= 200,
            forall|k: int|
                0 <= k < 200 ==> #[trigger] state@[k] == if at <= k < at + i {
                    Keccak256::absorb_spec(first, old(state)@[k], data@[k - at])
                } else {
                    old(state)@[k]
                },
        decreases n - i,
    {
        state[at + i] = Keccak256::absorb(first, state[at + i], data[i]);
        i += 1;
    }
}

/// A Keccak-256 sponge for hashing many short messages one after another: it
/// has a fixed 32-byte output and is reset, not rebuilt, between messages.
#[derive(Debug, Clone)]
pub struct Keccak256 {
    state: [u8; 200],
    offset: usize,
    first_block: bool,
}

impl View for Keccak256 {
    type V = SpongeState;

    /// The sponge state that the fields stand for. Until the first block of a
    /// message has been permuted, bytes at and after the offset count as zero
    /// whatever the buffer still holds from the message before.
    closed spec fn view(&self) -> SpongeState {
        SpongeState { bytes: self.logical(), offset: self.offset as nat }
    }
}

impl Default for Keccak256 {
    fn default() -> (sponge: Self)
        ensures
            sponge.wf(),
            sponge@ == SpongeState::initial(),
            sponge.is_first_block(),
            sponge.buffer() == SpongeState::initial().bytes,
    {
        Keccak256::new()
    }
}

impl Keccak256 {
    /// The offset is inside the block, and while the first block is being
    /// filled the capacity part of the buffer is zero.
    pub closed spec fn wf(&self) -> bool {
        &&& self.offset < RATE
        &&& self.first_block ==> forall|i: int| RATE <= i < 200 ==> self.state@[i] == 0
    }

    spec fn logical(&self) -> Seq<u8> {
        if self.first_block {
            Seq::new(
                200,
                |i: int|
                    if i < self.offset {
                        self.state@[i]
                    } else {
                        0u8
                    },
            )
        } else {
            self.state@
        }
    }

    /// Whether the sponge is still in the first block of a message: the flag
    /// is set from the start of a message until a block is permuted. While it
    /// is set, absorbed bytes are written over what the buffer holds; once it
    /// is clear, they are XORed in.
    pub closed spec fn is_first_block(&self) -> bool {
        self.first_block
    }

    /// The 200 bytes that the buffer holds. While the first block is being
    /// filled, the bytes of the rate part at and after the offset are left
    /// over from the message before and stand for zero.
    pub closed spec fn buffer(&self) -> Seq<u8> {
        self.state@
    }

    /// How the buffer and the state that the sponge stands for go together.
    /// Once the flag is clear the buffer is the state. While it is set, the
    /// buffer is the state up to the offset, the state is zero from there on,
    /// and the capacity part of the buffer is zero.
    pub proof fn lemma_buffer(&self)
        requires
            self.wf(),
        ensures
            self.buffer().len() == STATE_BYTES,
            self@.offset < RATE,
            !self.is_first_block() ==> self@.bytes == self.buffer(),
            self.is_first_block() ==> forall|i: int|
                0 <= i < STATE_BYTES ==> #[trigger] self@.bytes[i] == if i < self@.offset {
                    self.buffer()[i]
                } else {
                    0u8
                },
            self.is_first_block() ==> forall|i: int|
                RATE <= i < STATE_BYTES ==> #[trigger] self.buffer()[i] == 0,
    {
    }

    /// What one state byte becomes when it takes in `src`.
    pub open spec fn absorb_spec(first: bool, dst: u8, src: u8) -> u8 {
        if first {
            src
        } else {
            dst ^ src
        }
    }

    /// A well-formed sponge stands for a well-formed state.
    pub proof fn lemma_view_wf(&self)
        requires
            self.wf(),
        ensures
            self@.wf(),
    {
    }

    /// A fresh sponge.
    pub fn new() -> (sponge: Self)
        ensures
            sponge.wf(),
            sponge@ == SpongeState::initial(),
            sponge.is_first_block(),
            sponge.buffer() == SpongeState::initial().bytes,
    {
        let sponge = Keccak256 { state: [0u8; 200], offset: 0, first_block: true };
        assert(sponge@.bytes =~= SpongeState::initial().bytes);
        assert(sponge.buffer() =~= SpongeState::initial().bytes);
        sponge
    }

    /// Takes `src` into one state byte: in the first block the byte is
    /// written, later it is XORed in.
    pub fn absorb(first: bool, dst: u8, src: u8) -> (out: u8)
        ensures
            out == Self::absorb_spec(first, dst, src),
    {
        if first {
            src
        } else {
            dst ^ src
        }
    }

    fn permute(&mut self)
        requires
            old(self).offset < RATE,
        ensures
            final(self).state@ == permute(old(self).state@),
            final(self).offset == 0,
            !final(self).first_block,
    {
        permute_bytes(&mut self.state);
        self.first_block = false;
        self.offset = 0;
    }

    /// Takes in `data` without filling the block.
    fn absorb_partial(&mut self, data: &[u8])
        requires
            old(self).wf(),
            old(self).offset + data@.len() < RATE,
        ensures
            final(self).wf(),
            final(self)@ == absorb(old(self)@, data@),
            final(self).first_block == old(self).first_block,
            final(self).offset == old(self).offset + data@.len(),
            forall|i: int|
                0 <= i < STATE_BYTES ==> #[trigger] final(self).state@[i] == if old(self).offset
                    <= i < old(self).offset + data@.len() {
                    Self::absorb_spec(
                        old(self).first_block,
                        old(self).state@[i],
                        data@[i - old(self).offset],
                    )
                } else {
                    old(self).state@[i]
                },
    {
        let offset = self.offset;
        absorb_into(&mut self.state, self.first_block, offset, data);
        self.offset = offset + data.len();
        proof {
            let old_bytes = old(self)@.bytes;
            let new_bytes = self@.bytes;
            assert forall|i: int| 0 <= i < 200 implies new_bytes[i] == xor_at(
                old_bytes,
                offset as int,
                data@,
            )[i] by {
                if offset <= i < offset + data@.len() {
                    lemma_xor_zero(data@[i - offset]);
                }
            }
            assert(new_bytes =~= xor_at(old_bytes, offset as int, data@));
        }
    }

    /// Takes in the bytes that fill the block exactly, and permutes.
    pub fn absorb_block(&mut self, block: &[u8])
        requires
            old(self).wf(),
            old(self)@.offset + block@.len() == RATE,
        ensures
            final(self).wf(),
            final(self)@ == absorb(old(self)@, block@),
            final(self)@ == (SpongeState {
                bytes: permute(xor_at(old(self)@.bytes, old(self)@.offset as int, block@)),
                offset: 0,
            }),
            !final(self).is_first_block(),
            final(self).buffer() == final(self)@.bytes,
    {
        let offset = self.offset;
        absorb_into(&mut self.state, self.first_block, offset, block);
        proof {
            let old_bytes = old(self)@.bytes;
            assert forall|i: int| 0 <= i < 200 implies self.state@[i] == xor_at(
                old_bytes,
                offset as int,
                block@,
            )[i] by {
                if offset <= i < offset + block@.len() {
                    lemma_xor_zero(block@[i - offset]);
                }
            }
            assert(self.state@ =~= xor_at(old_bytes, offset as int, block@));
            lemma_absorb_fill(old(self)@, block@);
        }
        self.permute();
    }

    /// Absorbs `input`. Any number of updates may follow one another: the
    /// sponge ends in the state it would be in had their inputs come as one.
    ///
    /// The offset moves on by the length of the input, modulo the rate, and
    /// the first-block flag stays set only if it was set and the input does
    /// not fill the block. An input that does not fill the block goes into the
    /// buffer at the offset, written while the flag is set and XORed in once
    /// it is clear, and the rest of the buffer is as it was. After an input
    /// that fills the block the buffer is the state.
    pub fn update(&mut self, input: &[u8])
        requires
            old(self).wf(),
        ensures
            final(self).wf(),
            final(self)@ == absorb(old(self)@, input@),
            final(self)@.offset == (old(self)@.offset + input@.len()) % (RATE as nat),
            final(self).is_first_block() == (old(self).is_first_block() && old(self)@.offset
                + input@.len() < RATE),
            old(self)@.offset + input@.len() < RATE ==> forall|i: int|
                0 <= i < STATE_BYTES ==> #[trigger] final(self).buffer()[i] == if old(
                    self,
                )@.offset <= i < old(self)@.offset + input@.len() {
                    Self::absorb_spec(
                        old(self).is_first_block(),
                        old(self).buffer()[i],
                        input@[i - old(self)@.offset],
                    )
                } else {
                    old(self).buffer()[i]
                },
            !final(self).is_first_block() ==> final(self).buffer() == final(self)@.bytes,
    {
        let n = input.len();
        let rem = RATE - self.offset;
        proof {
            lemma_absorb_wf(old(self)@, input@);
        }

        // Not enough to fill the block: absorb and wait for more.
        if n < rem {
            self.absorb_partial(input);
            return ;
        }
        let mut pos: usize = 0;

        // Complete the block that an earlier update left open.
        if self.offset != 0 {
            let left = &input[0..rem];
            self.absorb_block(left);
            pos = rem;
            proof {
                assert(input@.take(rem as int) =~= left@);
            }
        }
        assert(input@.skip(0) =~= input@);

        // Absorb the remaining full blocks.
        while n - pos >= RATE
            invariant
                pos <= n,
                n == input@.len(),
                self.wf(),
                self@.offset == 0,
                absorb(old(self)@, input@) == absorb(self@, input@.skip(pos as int)),
                pos > 0 ==> !self.first_block,
                pos == 0 ==> old(self).offset == 0 && n >= RATE,
            decreases n - pos,
        {
            let block = &input[pos..pos + RATE];
            proof {
                let rest = input@.skip(pos as int);
                assert(rest.take(RATE as int) =~= block@);
                assert(rest.skip(RATE as int) =~= input@.skip(pos + RATE));
            }
            self.absorb_block(block);
            pos += RATE;
        }

        // What is left starts the next block.
        let tail = &input[pos..n];
        assert(tail@ =~= input@.skip(pos as int));
        self.absorb_partial(tail);
    }

    /// Pads the open block: pad10*1 with the Keccak domain byte.
    fn pad(&mut self)
        requires
            old(self).wf(),
        ensures
            final(self).offset == old(self).offset,
            final(self).state@ == xor_at(
                old(self)@.bytes,
                old(self)@.offset as int,
                padding(old(self)@.offset),
            ),
    {
        let offset = self.offset;
        if self.first_block {
            let mut i: usize = offset;
            while i < RATE
                invariant
                    offset <= i <= RATE,
                    self.offset == offset,
                    self.first_block,
                    forall|k: int| 0 <= k < offset ==> self.state@[k] == old(self).state@[k],
                    forall|k: int| offset <= k < i ==> self.state@[k] == 0,
                    forall|k: int| RATE <= k < 200 ==> self.state@[k] == 0,
                decreases RATE - i,
            {
                self.state[i] = 0;
                i += 1;
            }
        }
        assert(self.state@ =~= old(self)@.bytes);
        self.state[offset] = self.state[offset] ^ DELIM;
        self.state[RATE - 1] = self.state[RATE - 1] ^ 0x80;
        proof {
            let old_bytes = old(self)@.bytes;
            let pad = padding(offset as nat);
            assert forall|i: int| 0 <= i < 200 implies self.state@[i] == xor_at(
                old_bytes,
                offset as int,
                pad,
            )[i] by {
                lemma_xor_zero(old_bytes[i]);
            }
            assert(self.state@ =~= xor_at(old_bytes, offset as int, pad));
        }
    }

    /// Zeroes the capacity part and makes the sponge ready for a new message,
    /// dropping what was absorbed: the offset is zero and the first-block flag
    /// is set. The rate part of the buffer is left as it is: the first block
    /// of the next message is written over it.
    pub fn reset(&mut self)
        ensures
            final(self).wf(),
            final(self)@ == SpongeState::initial(),
            final(self).is_first_block(),
            forall|i: int| 0 <= i < RATE ==> #[trigger] final(self).buffer()[i] == old(
                self,
            ).buffer()[i],
            forall|i: int| RATE <= i < STATE_BYTES ==> #[trigger] final(self).buffer()[i] == 0,
    {
        let mut i: usize = RATE;
        while i < STATE_BYTES
            invariant
                RATE <= i <= STATE_BYTES,
                forall|k: int| RATE <= k < i ==> self.state@[k] == 0,
                forall|k: int| 0 <= k < RATE ==> self.state@[k] == old(self).state@[k],
            decreases STATE_BYTES - i,
        {
            self.state[i] = 0;
            i += 1;
        }
        self.first_block = true;
        self.offset = 0;
        assert(self@.bytes =~= SpongeState::initial().bytes);
    }

    /// Writes the digest of what was absorbed to `output` and leaves the
    /// sponge ready for the next message: the offset is zero, the first-block
    /// flag is set, and the capacity part of the buffer is zero. The rate
    /// part of the buffer keeps the block that the digest was taken from.
    pub fn finalize_and_reset(&mut self, output: &mut [u8; 32])
        requires
            old(self).wf(),
        ensures
            final(self).wf(),
            final(output)@ == digest(old(self)@),
            final(self)@ == finalized(old(self)@),
            final(self).is_first_block(),
            forall|i: int|
                0 <= i < RATE ==> #[trigger] final(self).buffer()[i] == absorb(
                    old(self)@,
                    padding(old(self)@.offset),
                ).bytes[i],
            forall|i: int| RATE <= i < STATE_BYTES ==> #[trigger] final(self).buffer()[i] == 0,
    {
        self.pad();
        proof {
            lemma_absorb_fill(old(self)@, padding(old(self)@.offset));
        }
        self.permute();
        let mut i: usize = 0;
        while i < DIGEST_BYTES
            invariant
                i <= DIGEST_BYTES,
                forall|k: int| 0 <= k < i ==> output@[k] == self.state@[k],
            decreases DIGEST_BYTES - i,
        {
            output[i] = self.state[i];
            i += 1;
        }
        assert(output@ =~= self.state@.take(DIGEST_BYTES as int));
        let ghost squeezed = self.state@;
        self.reset();
        assert(squeezed == absorb(old(self)@, padding(old(self)@.offset)).bytes);
    }

    /// Absorbs `input` and finalizes: on a sponge that is ready for a new
    /// message, `output` is the Keccak-256 digest of `input`.
    pub fn complete(&mut self, input: &[u8], output: &mut [u8; 32])
        requires
            old(self).wf(),
        ensures
            final(self).wf(),
            final(output)@ == hash_from(old(self)@, input@),
            final(self)@ == SpongeState::initial(),
            final(self).is_first_block(),
            forall|i: int| RATE <= i < STATE_BYTES ==> #[trigger] final(self).buffer()[i] == 0,
    {
        self.update(input);
        self.finalize_and_reset(output);
    }
}

} // verus!
