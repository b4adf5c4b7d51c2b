//! Transfer engine accounting: an upload declares its byte length up front,
//! the raw bytes then arrive in chunks, and the transfer is complete exactly
//! when the received count equals the declared length.  A transfer never
//! accepts more than it was promised, so a completed transfer holds
//! byte-identical content of exactly the declared size.

use vstd::prelude::*;

verus! {

/// The bytes carried by a sequence of chunks, in order.
pub open spec fn spec_chunks_bytes(chunks: Seq<Seq<u8>>) -> Seq<u8> {
    chunks.flatten()
}

/// One upload in progress on the receiving side.
pub struct IncomingFile {
    declared: u64,
    data: Vec<u8>,
}

impl IncomingFile {
    /// The length the sender declared before the raw bytes.
    pub closed spec fn spec_declared(self) -> u64 {
        self.declared
    }

    /// The bytes received so far, in arrival order.
    pub closed spec fn spec_data(self) -> Seq<u8> {
        self.data@
    }

    /// Well-formedness: a transfer never holds more than it was promised.
    pub open spec fn wf(self) -> bool {
        self.spec_data().len() <= self.spec_declared()
    }

    /// Start receiving a file of a declared length.
    pub fn new(declared: u64) -> (t: IncomingFile)
        ensures
            t.wf(),
            t.spec_declared() == declared,
            t.spec_data() == Seq::<u8>::empty(),
    {
        IncomingFile { declared, data: Vec::new() }
    }

    /// How many bytes have arrived.
    pub fn received(&self) -> (n: u64)
        requires
            self.wf(),
        ensures
            n == self.spec_data().len(),
    {
        self.data.len() as u64
    }

    /// How many bytes are still owed.
    pub fn remaining(&self) -> (n: u64)
        requires
            self.wf(),
        ensures
            n == self.spec_declared() - self.spec_data().len(),
    {
        self.declared - (self.data.len() as u64)
    }

    /// Whether the transfer is complete: the received count equals the
    /// declared length.
    pub fn is_complete(&self) -> (r: bool)
        requires
            self.wf(),
        ensures
            r == (self.spec_data().len() == self.spec_declared()),
    {
        self.data.len() as u64 == self.declared
    }

    /// Accept the next chunk from the connection, up to the number of bytes
    /// still owed: the accepted prefix is appended, anything beyond the
    /// declared length is left for the caller, and the count of accepted
    /// bytes is returned.
    pub fn accept_chunk(&mut self, chunk: &Vec<u8>) -> (accepted: usize)
        requires
            old(self).wf(),
        ensures
            final(self).wf(),
            final(self).spec_declared() == old(self).spec_declared(),
            accepted == if chunk@.len() <= old(self).spec_declared() - old(self).spec_data().len() {
                chunk@.len() as int
            } else {
                old(self).spec_declared() - old(self).spec_data().len()
            },
            final(self).spec_data() == old(self).spec_data() + chunk@.subrange(0, accepted as int),
    {
        let room = self.declared - (self.data.len() as u64);
        let accepted: usize = if (chunk.len() as u64) <= room {
            chunk.len()
        } else {
            room as usize
        };
        let ghost olddata = self.data@;
        let mut i: usize = 0;
        while i < accepted
            invariant
                i <= accepted,
                accepted <= chunk@.len(),
                self.data@ == olddata + chunk@.subrange(0, i as int),
                self.declared == old(self).declared,
            decreases accepted - i,
        {
            self.data.push(chunk[i]);
            proof {
                assert(self.data@ =~= olddata + chunk@.subrange(0, i as int + 1));
            }
            i = i + 1;
        }
        accepted
    }

    /// The received content.
    pub fn bytes(&self) -> (r: &Vec<u8>)
        ensures
            r@ == self.spec_data(),
    {
        &self.data
    }
}

/// Split a file into chunks of at most `size` bytes whose concatenation is
/// exactly the file: what the sending side writes after the length prefix.
pub fn chunk_bytes(data: &Vec<u8>, size: usize) -> (chunks: Vec<Vec<u8>>)
    requires
        1 <= size,
    ensures
        spec_chunks_bytes(chunks@.map_values(|c: Vec<u8>| c@)) == data@,
        forall|i: int| 0 <= i < chunks@.len() ==> 1 <= (#[trigger] chunks@[i])@.len() <= size,
{
    let mut chunks: Vec<Vec<u8>> = Vec::new();
    let mut pos: usize = 0;
    while pos < data.len()
        invariant
            pos <= data@.len(),
            1 <= size,
            spec_chunks_bytes(chunks@.map_values(|c: Vec<u8>| c@)) == data@.subrange(0, pos as int),
            forall|i: int| 0 <= i < chunks@.len() ==> 1 <= (#[trigger] chunks@[i])@.len() <= size,
        decreases data@.len() - pos,
    {
        let stop: usize = if size <= data.len() - pos {
            pos + size
        } else {
            data.len()
        };
        let ghost oldchunks = chunks@;
        let mut piece: Vec<u8> = Vec::new();
        let mut q: usize = pos;
        while q < stop
            invariant
                pos <= q <= stop,
                stop <= data@.len(),
                piece@ == data@.subrange(pos as int, q as int),
            decreases stop - q,
        {
            piece.push(data[q]);
            proof {
                assert(piece@ =~= data@.subrange(pos as int, q as int + 1));
            }
            q = q + 1;
        }
        let ghost pv = piece@;
        chunks.push(piece);
        proof {
            broadcast use vstd::seq_lib::group_seq_lib_default;

            let mapped_old = oldchunks.map_values(|c: Vec<u8>| c@);
            let mapped_new = chunks@.map_values(|c: Vec<u8>| c@);
            assert(mapped_new =~= mapped_old.push(pv));
            mapped_old.lemma_flatten_push(pv);
            assert(mapped_new.flatten() =~= data@.subrange(0, stop as int));
        }
        pos = stop;
    }
    proof {
        assert(data@.subrange(0, data@.len() as int) =~= data@);
    }
    chunks
}

/// Receive a whole upload: feed every chunk into a fresh transfer of the
/// declared length.  The content comes back exactly when the chunks carry
/// exactly the declared number of bytes, and it is byte-identical to what
/// the chunks carry; otherwise the mismatch is reported and nothing is made
/// up.
pub fn receive_upload(declared: u64, chunks: &Vec<Vec<u8>>) -> (r: Option<Vec<u8>>)
    ensures
        ({
            let sent = spec_chunks_bytes(chunks@.map_values(|c: Vec<u8>| c@));
            match r {
                Some(bytes) => bytes@ == sent && sent.len() == declared,
                None => sent.len() != declared,
            }
        }),
{
    let mut t = IncomingFile::new(declared);
    let mut i: usize = 0;
    let mut overflow = false;
    while i < chunks.len()
        invariant
            i <= chunks@.len(),
            t.wf(),
            t.spec_declared() == declared,
            ({
                let sent = spec_chunks_bytes(
                    chunks@.subrange(0, i as int).map_values(|c: Vec<u8>| c@),
                );
                if overflow {
                    sent.len() > declared
                } else {
                    t.spec_data() == sent
                }
            }),
        decreases chunks@.len() - i,
    {
        let ghost prefix_old = chunks@.subrange(0, i as int).map_values(|c: Vec<u8>| c@);
        let ghost cv = chunks@[i as int]@;
        if !overflow {
            let accepted = t.accept_chunk(&chunks[i]);
            if accepted < chunks[i].len() {
                overflow = true;
            }
            proof {
                broadcast use vstd::seq_lib::group_seq_lib_default;

                let prefix_new = chunks@.subrange(0, i as int + 1).map_values(|c: Vec<u8>| c@);
                assert(prefix_new =~= prefix_old.push(cv));
                prefix_old.lemma_flatten_push(cv);
                if accepted < chunks@[i as int]@.len() {
                    assert(prefix_new.flatten().len() > declared);
                } else {
                    assert(cv.subrange(0, accepted as int) =~= cv);
                    assert(t.spec_data() =~= prefix_new.flatten());
                }
            }
        } else {
            proof {
                broadcast use vstd::seq_lib::group_seq_lib_default;

                let prefix_new = chunks@.subrange(0, i as int + 1).map_values(|c: Vec<u8>| c@);
                assert(prefix_new =~= prefix_old.push(cv));
                prefix_old.lemma_flatten_push(cv);
            }
        }
        i = i + 1;
    }
    proof {
        assert(chunks@.subrange(0, chunks@.len() as int) =~= chunks@);
    }
    if overflow {
        return None;
    }
    if !t.is_complete() {
        return None;
    }
    let bytes = crate::text::copy_bytes(t.bytes());
    Some(bytes)
}

/// A completed upload of a declared length, recorded in the catalogue and
/// read back, yields content that is byte-identical to what was sent and
/// exactly the declared number of bytes long.
pub proof fn lemma_upload_round_trip(
    m: Map<Seq<u8>, Seq<u8>>,
    name: Seq<u8>,
    chunks: Seq<Seq<u8>>,
    declared: int,
)
    requires
        spec_chunks_bytes(chunks).len() == declared,
    ensures
        m.insert(name, spec_chunks_bytes(chunks)).contains_key(name),
        m.insert(name, spec_chunks_bytes(chunks))[name] == spec_chunks_bytes(chunks),
        m.insert(name, spec_chunks_bytes(chunks))[name].len() == declared,
{
}

} // verus!
