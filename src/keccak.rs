//! The input transcript of a batch of Keccak hashes: a block-count slot, the
//! padded data of one hash, its digest, the next block-count slot, and so on.
use vstd::prelude::*;

verus! {

/// Bytes the transcript can hold.
pub const KECCAK_LIMIT: usize = 10000;

/// Bytes reserved for each block count.
pub const BLOCK_COUNT_BYTES: usize = 8;

/// Bytes in one Keccak block.
pub const BLOCK_BYTES: usize = 136;

/// Why the batcher refused a write.
#[derive(PartialEq, Eq, Structural, Debug, Clone, Copy)]
pub enum BatchError {
    /// The transcript has no room for the bytes.
    LimitExceeded,
    /// The data of the current hash is not a whole number of blocks.
    NotPadded,
}

/// `t` with `input` written from position `at` on.
pub open spec fn written(t: Seq<u8>, at: int, input: Seq<u8>) -> Seq<u8> {
    Seq::new(t.len(), |i: int| if at <= i < at + input.len() { input[i - at] } else { t[i] })
}

/// The padding after `len` bytes of data: `0x01`, zeros, and `0x80`,
/// ending on a block boundary.
pub open spec fn padding(len: int) -> Seq<u8> {
    let rem = BLOCK_BYTES - (len + 1) % (BLOCK_BYTES as int);
    seq![0x01u8] + Seq::new((rem - 1) as nat, |i: int| 0u8) + seq![0x80u8]
}

/// Relies on risc0_zkp's CPU `Sha256::hash_bytes`: the SHA-256 digest of the
/// bytes, which depends on them alone.
pub uninterp spec fn sha256_of(bytes: Seq<u8>) -> Seq<u8>;

/// Relies on risc0_zkp's CPU `Sha256::hash_bytes` and `Digest::as_bytes`:
/// the 32 bytes of the SHA-256 digest of `bytes`.
#[verifier::external_body]
fn sha256(bytes: &[u8]) -> (r: Vec<u8>)
    ensures
        r@ == sha256_of(bytes@),
        r@.len() == 32,
{
    <risc0_zkp::core::hash::sha::cpu::Impl as risc0_zkp::core::hash::sha::Sha256>::hash_bytes(
        bytes,
    ).as_bytes().to_vec()
}

/// Collects the inputs and digests of a batch of Keccak hashes.
pub struct KeccakBatcher {
    input_transcript: Vec<u8>,
    block_count_offset: usize,
    data_offset: usize,
}

/// An empty batch: a zeroed transcript whose first block-count slot is open.
pub fn batcher() -> (r: KeccakBatcher)
    ensures
        r.wf(),
        r.transcript_bytes() == Seq::new(KECCAK_LIMIT as nat, |i: int| 0u8),
        r.block_count_offset() == 0,
        r.data_offset() == BLOCK_COUNT_BYTES,
{
    let mut t: Vec<u8> = Vec::new();
    while t.len() < KECCAK_LIMIT
        invariant
            t@.len() <= KECCAK_LIMIT,
            forall|i: int| 0 <= i < t@.len() ==> #[trigger] t@[i] == 0u8,
        decreases KECCAK_LIMIT - t@.len(),
    {
        t.push(0);
    }
    assert(t@ =~= Seq::new(KECCAK_LIMIT as nat, |i: int| 0u8));
    KeccakBatcher { input_transcript: t, block_count_offset: 0, data_offset: BLOCK_COUNT_BYTES }
}

impl Default for KeccakBatcher {
    fn default() -> (r: Self)
        ensures
            r.wf(),
            r.transcript_bytes() == Seq::new(KECCAK_LIMIT as nat, |i: int| 0u8),
            r.block_count_offset() == 0,
            r.data_offset() == BLOCK_COUNT_BYTES,
    {
        batcher()
    }
}

impl KeccakBatcher {
    /// The whole transcript buffer.
    pub closed spec fn transcript_bytes(&self) -> Seq<u8> {
        self.input_transcript@
    }

    /// Where the block count of the current hash goes.
    pub closed spec fn block_count_offset(&self) -> int {
        self.block_count_offset as int
    }

    /// Where the next data byte goes.
    pub closed spec fn data_offset(&self) -> int {
        self.data_offset as int
    }

    /// Data bytes of the current hash so far.
    pub open spec fn data_length(&self) -> int {
        self.data_offset() - (self.block_count_offset() + BLOCK_COUNT_BYTES)
    }

    /// The buffer has its full size, the open block-count slot lies in it,
    /// and the data of the current hash follows that slot.
    pub open spec fn wf(&self) -> bool {
        &&& self.transcript_bytes().len() == KECCAK_LIMIT
        &&& 0 <= self.block_count_offset() <= KECCAK_LIMIT
        &&& self.block_count_offset() + BLOCK_COUNT_BYTES <= self.data_offset()
        &&& self.data_offset() <= KECCAK_LIMIT + BLOCK_COUNT_BYTES
    }

    proof fn lemma_view(&self)
        ensures
            self.transcript_bytes() == self.input_transcript@,
            self.block_count_offset() == self.block_count_offset,
            self.data_offset() == self.data_offset,
    {
    }

    /// Appends raw data, or padding, of the current hash.
    pub fn write_data(&mut self, input: &[u8]) -> (r: Result<(), BatchError>)
        requires
            old(self).wf(),
        ensures
            final(self).wf(),
            old(self).data_offset() + input@.len() > KECCAK_LIMIT <==> r == Err::<(), BatchError>(
                BatchError::LimitExceeded,
            ),
            old(self).data_offset() + input@.len() <= KECCAK_LIMIT <==> r is Ok,
            r is Err ==> *final(self) == *old(self),
            r is Ok ==> final(self).transcript_bytes() == written(
                old(self).transcript_bytes(),
                old(self).data_offset(),
                input@,
            ) && final(self).data_offset() == old(self).data_offset() + input@.len()
                && final(self).block_count_offset() == old(self).block_count_offset(),
    {
        proof {
            self.lemma_view();
        }
        if input.len() > KECCAK_LIMIT || self.data_offset > KECCAK_LIMIT - input.len() {
            return Err(BatchError::LimitExceeded);
        }
        let ghost t0 = self.input_transcript@;
        let start = self.data_offset;
        let mut k: usize = 0;
        while k < input.len()
            invariant
                start + input@.len() <= KECCAK_LIMIT,
                self.input_transcript@.len() == KECCAK_LIMIT,
                t0.len() == KECCAK_LIMIT,
                self.data_offset == start,
                self.block_count_offset == old(self).block_count_offset,
                k <= input@.len(),
                forall|i: int|
                    0 <= i < KECCAK_LIMIT ==> #[trigger] self.input_transcript@[i] == if start <= i
                        < start + k {
                        input@[i - start]
                    } else {
                        t0[i]
                    },
            decreases input@.len() - k,
        {
            self.input_transcript.set(start + k, input[k]);
            k = k + 1;
        }
        self.data_offset = start + input.len();
        proof {
            self.lemma_view();
            assert(self.input_transcript@ =~= written(t0, start as int, input@));
        }
        Ok(())
    }

    /// Data bytes of the current hash so far.
    pub fn current_data_length(&self) -> (r: usize)
        requires
            self.wf(),
        ensures
            r == self.data_length(),
    {
        proof {
            self.lemma_view();
        }
        self.data_offset - (self.block_count_offset + BLOCK_COUNT_BYTES)
    }

    /// Pads the current hash's data to a block boundary with `0x01`, zeros
    /// and `0x80`.
    pub fn write_padding(&mut self) -> (r: Result<(), BatchError>)
        requires
            old(self).wf(),
        ensures
            final(self).wf(),
            old(self).data_offset() + padding(old(self).data_length()).len() <= KECCAK_LIMIT
                <==> r is Ok,
            r is Err ==> r == Err::<(), BatchError>(BatchError::LimitExceeded),
            old(self).data_offset() + 1 > KECCAK_LIMIT ==> *final(self) == *old(self),
            old(self).data_offset() + 1 <= KECCAK_LIMIT && r is Err ==> final(self).transcript_bytes()
                == written(old(self).transcript_bytes(), old(self).data_offset(), seq![0x01u8])
                && final(self).data_offset() == old(self).data_offset() + 1
                && final(self).block_count_offset() == old(self).block_count_offset(),
            r is Ok ==> final(self).transcript_bytes() == written(
                old(self).transcript_bytes(),
                old(self).data_offset(),
                padding(old(self).data_length()),
            ) && final(self).data_offset() == old(self).data_offset() + padding(
                old(self).data_length(),
            ).len() && final(self).block_count_offset() == old(self).block_count_offset()
                && final(self).data_length() % (BLOCK_BYTES as int) == 0,
    {
        let ghost t0 = self.transcript_bytes();
        let ghost d = self.data_offset();
        let ghost len0 = self.data_length();
        let mut one: Vec<u8> = Vec::new();
        one.push(0x01);
        assert(one@ =~= seq![0x01u8]);
        self.write_data(one.as_slice())?;
        let data_length = self.current_data_length();
        let remaining = BLOCK_BYTES - (data_length % BLOCK_BYTES);
        proof {
            self.lemma_view();
        }
        if self.data_offset + remaining > KECCAK_LIMIT {
            return Err(BatchError::LimitExceeded);
        }
        let mut zeros: Vec<u8> = Vec::new();
        while zeros.len() < remaining - 1
            invariant
                zeros@.len() <= remaining - 1,
                forall|i: int| 0 <= i < zeros@.len() ==> #[trigger] zeros@[i] == 0u8,
            decreases remaining - 1 - zeros@.len(),
        {
            zeros.push(0);
        }
        self.write_data(zeros.as_slice())?;
        let mut last: Vec<u8> = Vec::new();
        last.push(0x80);
        assert(last@ =~= seq![0x80u8]);
        self.write_data(last.as_slice())?;
        proof {
            let pad = padding(len0);
            assert(pad =~= seq![0x01u8] + zeros@ + seq![0x80u8]);
            assert(self.transcript_bytes() =~= written(t0, d, pad));
        }
        if self.current_data_length() % BLOCK_BYTES != 0 {
            return Err(BatchError::NotPadded);
        }
        Ok(())
    }

    /// Appends the digest of the current hash, records its block count in
    /// its slot, and opens the next hash's slot after the digest.
    pub fn write_hash(&mut self, input: &[u8]) -> (r: Result<(), BatchError>)
        requires
            old(self).wf(),
        ensures
            final(self).wf(),
            ({
                let d = old(self).data_offset();
                let len = old(self).data_length();
                &&& len % (BLOCK_BYTES as int) != 0 ==> r == Err::<(), BatchError>(
                    BatchError::NotPadded,
                )
                &&& len % (BLOCK_BYTES as int) == 0 && d + input@.len() > KECCAK_LIMIT ==> r
                    == Err::<(), BatchError>(BatchError::LimitExceeded)
                &&& len % (BLOCK_BYTES as int) == 0 && d + input@.len() <= KECCAK_LIMIT <==> r is Ok
                &&& r is Err ==> *final(self) == *old(self)
                &&& r is Ok ==> (final(self).transcript_bytes() == written(
                    old(self).transcript_bytes(),
                    d,
                    input@,
                ).update(old(self).block_count_offset(), (len / (BLOCK_BYTES as int)) as u8)
                    && final(self).block_count_offset() == d + input@.len()
                    && final(self).data_offset() == d + input@.len() + BLOCK_COUNT_BYTES)
            }),
    {
        let data_length = self.current_data_length();
        if data_length % BLOCK_BYTES != 0 {
            return Err(BatchError::NotPadded);
        }
        let block_count = (data_length / BLOCK_BYTES) as u8;
        self.write_data(input)?;
        proof {
            self.lemma_view();
        }
        let at = self.block_count_offset;
        self.input_transcript.set(at, block_count);
        self.block_count_offset = self.data_offset;
        self.data_offset = self.data_offset + BLOCK_COUNT_BYTES;
        proof {
            self.lemma_view();
        }
        Ok(())
    }

    /// The transcript up to the end of the current block-count slot.
    pub fn transcript(&self) -> (r: Vec<u8>)
        requires
            self.wf(),
            self.block_count_offset() + BLOCK_COUNT_BYTES <= KECCAK_LIMIT,
        ensures
            r@ == self.transcript_bytes().take(self.block_count_offset() + BLOCK_COUNT_BYTES),
    {
        proof {
            self.lemma_view();
        }
        let end = self.block_count_offset + BLOCK_COUNT_BYTES;
        let mut out: Vec<u8> = Vec::new();
        let mut i: usize = 0;
        while i < end
            invariant
                end <= self.input_transcript@.len(),
                i <= end,
                out@ == self.input_transcript@.take(i as int),
            decreases end - i,
        {
            out.push(self.input_transcript[i]);
            assert(self.input_transcript@.take(i + 1) =~= self.input_transcript@.take(
                i as int,
            ).push(self.input_transcript@[i as int]));
            i = i + 1;
        }
        out
    }

    /// Clears the open block-count slot and returns the SHA-256 digest of the
    /// transcript up to its end.
    pub fn finalize(&mut self) -> (r: Result<Vec<u8>, BatchError>)
        requires
            old(self).wf(),
        ensures
            final(self).wf(),
            old(self).data_offset() + BLOCK_COUNT_BYTES > KECCAK_LIMIT <==> r == Err::<
                Vec<u8>,
                BatchError,
            >(BatchError::LimitExceeded),
            old(self).data_offset() + BLOCK_COUNT_BYTES <= KECCAK_LIMIT <==> r is Ok,
            r is Err ==> *final(self) == *old(self),
            r matches Ok(h) ==> ({
                let b = old(self).block_count_offset();
                let cleared = written(
                    old(self).transcript_bytes(),
                    b,
                    Seq::new(BLOCK_COUNT_BYTES as nat, |i: int| 0u8),
                );
                &&& final(self).transcript_bytes() == cleared
                &&& final(self).block_count_offset() == b
                &&& final(self).data_offset() == old(self).data_offset()
                &&& h@ == sha256_of(cleared.take(b + BLOCK_COUNT_BYTES))
                &&& h@.len() == 32
            }),
    {
        proof {
            self.lemma_view();
        }
        if self.data_offset + BLOCK_COUNT_BYTES > KECCAK_LIMIT {
            return Err(BatchError::LimitExceeded);
        }
        let ghost t0 = self.input_transcript@;
        let b = self.block_count_offset;
        let mut k: usize = 0;
        while k < BLOCK_COUNT_BYTES
            invariant
                b + BLOCK_COUNT_BYTES <= KECCAK_LIMIT,
                self.input_transcript@.len() == KECCAK_LIMIT,
                t0.len() == KECCAK_LIMIT,
                self.block_count_offset == b,
                self.data_offset == old(self).data_offset,
                k <= BLOCK_COUNT_BYTES,
                forall|i: int|
                    0 <= i < KECCAK_LIMIT ==> #[trigger] self.input_transcript@[i] == if b <= i < b
                        + k {
                        0u8
                    } else {
                        t0[i]
                    },
            decreases BLOCK_COUNT_BYTES - k,
        {
            self.input_transcript.set(b + k, 0);
            k = k + 1;
        }
        proof {
            self.lemma_view();
            assert(self.input_transcript@ =~= written(
                t0,
                b as int,
                Seq::new(BLOCK_COUNT_BYTES as nat, |i: int| 0u8),
            ));
        }
        let prefix = self.transcript();
        Ok(sha256(prefix.as_slice()))
    }
}

} // verus!
