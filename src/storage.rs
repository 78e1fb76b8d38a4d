//! The stored form of an index: a 4-byte big-endian metadata length `M`, then
//! `M` bytes of metadata archive, then the index archive to the end.
use vstd::prelude::*;
use vstd::arithmetic::div_mod::{lemma_fundamental_div_mod, lemma_div_denominator, lemma_small_mod};

verus! {

/// Framing of index archives.
pub struct Storage {}

/// Why stored bytes cannot be read.
#[derive(PartialEq, Eq, Structural, Debug, Clone, Copy)]
pub enum CodecError {
    /// Fewer than four bytes: no length prefix.
    MissingLength,
    /// The length prefix promises more metadata than there is.
    TruncatedMetadata,
}

/// The big-endian bytes of `n`.
pub open spec fn be32(n: u32) -> Seq<u8> {
    seq![
        ((n / 0x100_0000) % 0x100) as u8,
        ((n / 0x1_0000) % 0x100) as u8,
        ((n / 0x100) % 0x100) as u8,
        (n % 0x100) as u8,
    ]
}

/// The number that four big-endian bytes give.
pub open spec fn be32_value(b: Seq<u8>) -> int {
    b[0] * 0x100_0000 + b[1] * 0x1_0000 + b[2] * 0x100 + b[3]
}

/// The stored form of metadata `m` and payload `p`.
pub open spec fn framed(m: Seq<u8>, p: Seq<u8>) -> Seq<u8> {
    be32(m.len() as u32) + m + p
}

/// The metadata and payload of stored bytes, when the length prefix fits.
pub open spec fn unframed(b: Seq<u8>) -> Result<(Seq<u8>, Seq<u8>), CodecError> {
    if b.len() < 4 {
        Err(CodecError::MissingLength)
    } else if 4 + be32_value(b) > b.len() {
        Err(CodecError::TruncatedMetadata)
    } else {
        let end = 4 + be32_value(b);
        Ok((b.subrange(4, end), b.subrange(end, b.len() as int)))
    }
}

/// The metadata block of the head of stored bytes: none when the length is zero.
pub open spec fn metadata_of(b: Seq<u8>) -> Result<Option<Seq<u8>>, CodecError> {
    if b.len() < 4 {
        Err(CodecError::MissingLength)
    } else if be32_value(b) == 0 {
        Ok(None)
    } else if 4 + be32_value(b) > b.len() {
        Err(CodecError::TruncatedMetadata)
    } else {
        Ok(Some(b.subrange(4, 4 + be32_value(b))))
    }
}

proof fn lemma_be32(n: u32)
    ensures
        be32_value(be32(n)) == n,
{
    let x = n as int;
    lemma_fundamental_div_mod(x, 0x100);
    lemma_fundamental_div_mod(x / 0x100, 0x100);
    lemma_fundamental_div_mod(x / 0x1_0000, 0x100);
    lemma_div_denominator(x, 0x100, 0x100);
    lemma_div_denominator(x, 0x1_0000, 0x100);
    lemma_small_mod((x / 0x100_0000) as nat, 0x100);
}

/// Stored bytes give back the metadata and payload they were made of.
pub proof fn lemma_round_trip(m: Seq<u8>, p: Seq<u8>)
    requires
        m.len() <= u32::MAX,
    ensures
        unframed(framed(m, p)) == Ok::<(Seq<u8>, Seq<u8>), CodecError>((m, p)),
{
    lemma_be32(m.len() as u32);
    let b = framed(m, p);
    assert(be32_value(b) == m.len()) by {
        assert(b.subrange(0, 4) == be32(m.len() as u32));
        assert(b[0] == be32(m.len() as u32)[0] && b[1] == be32(m.len() as u32)[1]);
        assert(b[2] == be32(m.len() as u32)[2] && b[3] == be32(m.len() as u32)[3]);
    }
    assert(b.subrange(4, 4 + m.len() as int) =~= m);
    assert(b.subrange(4 + m.len() as int, b.len() as int) =~= p);
}

/// The metadata of stored bytes is read from their head alone: the length
/// prefix and the metadata, whatever payload follows.
pub proof fn lemma_metadata_from_head(m: Seq<u8>, p: Seq<u8>)
    requires
        m.len() <= u32::MAX,
    ensures
        metadata_of(framed(m, p).take(4 + m.len() as int)) == if m.len() == 0 {
            Ok::<Option<Seq<u8>>, CodecError>(None)
        } else {
            Ok(Some(m))
        },
{
    lemma_be32(m.len() as u32);
    let h = framed(m, p).take(4 + m.len() as int);
    assert(h[0] == be32(m.len() as u32)[0] && h[1] == be32(m.len() as u32)[1]);
    assert(h[2] == be32(m.len() as u32)[2] && h[3] == be32(m.len() as u32)[3]);
    assert(h.subrange(4, 4 + m.len() as int) =~= m);
}

fn length_of(b: &Vec<u8>) -> (r: u64)
    requires
        b.len() >= 4,
    ensures
        r == be32_value(b@),
{
    (b[0] as u64) * 0x100_0000 + (b[1] as u64) * 0x1_0000 + (b[2] as u64) * 0x100 + (b[3] as u64)
}

fn copy_range(b: &Vec<u8>, from: usize, to: usize) -> (r: Vec<u8>)
    requires
        from <= to <= b.len(),
    ensures
        r@ == b@.subrange(from as int, to as int),
{
    let mut out: Vec<u8> = Vec::new();
    let mut i: usize = from;
    while i < to
        invariant
            from <= i <= to,
            to <= b.len(),
            out@ == b@.subrange(from as int, i as int),
        decreases to - i,
    {
        out.push(b[i]);
        i += 1;
        assert(out@ =~= b@.subrange(from as int, i as int));
    }
    out
}

impl Storage {
    pub fn new() -> (r: Storage) {
        Storage {}
    }

    /// The stored form of a metadata archive and an index archive.
    pub fn dump(&self, metadata: &Vec<u8>, payload: &Vec<u8>) -> (r: Vec<u8>)
        requires
            metadata.len() <= u32::MAX,
        ensures
            r@ == framed(metadata@, payload@),
    {
        let n = metadata.len() as u32;
        let mut out: Vec<u8> = Vec::new();
        out.push(((n / 0x100_0000) % 0x100) as u8);
        out.push(((n / 0x1_0000) % 0x100) as u8);
        out.push(((n / 0x100) % 0x100) as u8);
        out.push((n % 0x100) as u8);
        assert(out@ =~= be32(n));
        let mut i: usize = 0;
        while i < metadata.len()
            invariant
                i <= metadata.len(),
                out@ == be32(n) + metadata@.take(i as int),
            decreases metadata.len() - i,
        {
            out.push(metadata[i]);
            i += 1;
            assert(out@ =~= be32(n) + metadata@.take(i as int));
        }
        let mut j: usize = 0;
        let ghost head = out@;
        assert(head =~= be32(n) + metadata@);
        while j < payload.len()
            invariant
                j <= payload.len(),
                out@ == head + payload@.take(j as int),
            decreases payload.len() - j,
        {
            out.push(payload[j]);
            j += 1;
            assert(out@ =~= head + payload@.take(j as int));
        }
        assert(payload@.take(payload.len() as int) =~= payload@);
        out
    }

    /// The metadata archive and index archive of stored bytes.
    pub fn load(&self, bytes: &Vec<u8>) -> (r: Result<(Vec<u8>, Vec<u8>), CodecError>)
        ensures
            match r {
                Ok((m, p)) => unframed(bytes@) == Ok::<(Seq<u8>, Seq<u8>), CodecError>((m@, p@)),
                Err(e) => unframed(bytes@) == Err::<(Seq<u8>, Seq<u8>), CodecError>(e),
            },
    {
        if bytes.len() < 4 {
            return Err(CodecError::MissingLength);
        }
        let n = length_of(bytes);
        if n > (bytes.len() - 4) as u64 {
            return Err(CodecError::TruncatedMetadata);
        }
        let end = 4 + n as usize;
        Ok((copy_range(bytes, 4, end), copy_range(bytes, end, bytes.len())))
    }

    /// The metadata archive from the head of stored bytes; the payload need
    /// not be there. None when the length prefix is zero.
    pub fn read_metadata(&self, head: &Vec<u8>) -> (r: Result<Option<Vec<u8>>, CodecError>)
        ensures
            match r {
                Ok(Some(m)) => metadata_of(head@) == Ok::<Option<Seq<u8>>, CodecError>(Some(m@)),
                Ok(None) => metadata_of(head@) == Ok::<Option<Seq<u8>>, CodecError>(None),
                Err(e) => metadata_of(head@) == Err::<Option<Seq<u8>>, CodecError>(e),
            },
    {
        if head.len() < 4 {
            return Err(CodecError::MissingLength);
        }
        let n = length_of(head);
        if n == 0 {
            return Ok(None);
        }
        if n > (head.len() - 4) as u64 {
            return Err(CodecError::TruncatedMetadata);
        }
        Ok(Some(copy_range(head, 4, 4 + n as usize)))
    }
}

} // verus!
