//! A learned index fronted by a bounded delta buffer (the COOP buffer) that
//! absorbs writes until it would overflow, and is flushed when it would.
use vstd::prelude::*;
use crate::text::{decimal, to_decimal};
use crate::wok::wokcore::design::{Accelerator, ClearnedStructure, DataStructure};

verus! {

/// The message a write reports when the buffer could not take it.
pub open spec fn buffer_full_message() -> Seq<char> {
    "COOP buffer full, flushed"@
}

/// Whether `data` fits in a buffer of `capacity` bytes that already holds
/// `buffered` bytes.
pub open spec fn fits(buffered: Seq<u8>, capacity: nat, data: Seq<u8>) -> bool {
    buffered.len() + data.len() <= capacity
}

/// A write fits exactly when the bytes already buffered and the new bytes
/// together take no more than the capacity, whatever their relative sizes:
/// any write of at most the room left fits, and none larger does.
pub proof fn lemma_fits_is_room(buffered: Seq<u8>, capacity: nat, data: Seq<u8>)
    ensures
        fits(buffered, capacity, data) <==> buffered.len() + data.len() <= capacity,
        buffered.len() <= capacity ==> (fits(buffered, capacity, data) <==> data.len() <= capacity
            - buffered.len()),
        fits(buffered, capacity, data) ==> fits(Seq::empty(), capacity, data),
{
}

/// Bounded byte buffer in front of a learned index.
pub struct COOPBuffer {
    capacity: u64,
    delta_buffer: Vec<u8>,
}

/// A learned index model together with its COOP write buffer.
pub struct LearnedIndex {
    model: String,
    coop_buffer: COOPBuffer,
}

impl LearnedIndex {
    /// Name of the learned model (for instance "PGM").
    pub closed spec fn model_name(&self) -> Seq<char> {
        self.model@
    }

    /// Capacity of the write buffer, in bytes.
    pub closed spec fn capacity(&self) -> nat {
        self.coop_buffer.capacity as nat
    }

    /// Bytes currently held by the write buffer, oldest first.
    pub closed spec fn buffered(&self) -> Seq<u8> {
        self.coop_buffer.delta_buffer@
    }

    /// The buffer never holds more than its capacity.
    #[verifier::type_invariant]
    spec fn inv(&self) -> bool {
        self.coop_buffer.delta_buffer@.len() <= self.coop_buffer.capacity
    }

    /// An index for `model` with an empty buffer of `capacity` bytes.
    pub fn new(model: &str, capacity: u64) -> (index: Self)
        ensures
            index.model_name() == model@,
            index.capacity() == capacity,
            index.buffered() == Seq::<u8>::empty(),
            index.buffered().len() <= index.capacity(),
    {
        LearnedIndex {
            model: model.to_owned(),
            coop_buffer: COOPBuffer { capacity, delta_buffer: Vec::new() },
        }
    }

    /// Appends `data` to the buffer when it fits; otherwise flushes the
    /// buffer and reports that it was full.
    pub fn write(&mut self, data: &[u8]) -> (result: Result<(), String>)
        ensures
            final(self).buffered().len() <= final(self).capacity(),
            final(self).model_name() == old(self).model_name(),
            final(self).capacity() == old(self).capacity(),
            result is Ok <==> old(self).buffered().len() + data@.len() <= old(self).capacity(),
            result is Ok <==> fits(old(self).buffered(), old(self).capacity(), data@),
            result is Ok ==> final(self).buffered() == old(self).buffered() + data@,
            result matches Err(msg) ==> msg@ == buffer_full_message()
                && final(self).buffered() == Seq::<u8>::empty(),
    {
        proof {
            use_type_invariant(&*self);
        }
        let capacity = self.coop_buffer.capacity;
        let buffered = self.coop_buffer.delta_buffer.len() as u64;
        let incoming = data.len() as u64;
        let room = capacity - buffered;
        if incoming <= room {
            let mut buffer = Vec::new();
            std::mem::swap(&mut buffer, &mut self.coop_buffer.delta_buffer);
            let ghost before = buffer@;
            buffer.extend_from_slice(data);
            assert(buffer@ =~= before + data@);
            self.coop_buffer = COOPBuffer { capacity, delta_buffer: buffer };
            Ok(())
        } else {
            self.coop_buffer = COOPBuffer { capacity, delta_buffer: Vec::new() };
            Err("COOP buffer full, flushed".to_owned())
        }
    }

    /// The design this index forms with an LSM tree: the learned model over
    /// the tree, with the write buffer as a "Buffer" accelerator whose "size"
    /// setting is the capacity in decimal.
    pub fn compose(&self) -> (combined: ClearnedStructure)
        ensures
            combined.learned@ == self.model_name(),
            combined.classical@ == "LSMTree"@,
            combined.accelerators@.len() == 1,
            combined.accelerators@[0].kind@ == "Buffer"@,
            combined.accelerators@[0].config@.len() == 1,
            combined.accelerators@[0].config@[0].0@ == "size"@,
            combined.accelerators@[0].config@[0].1@ == decimal(self.capacity()),
            combined.accelerators@[0].settings_distinct(),
    {
        let mut config = Vec::new();
        config.push(("size".to_owned(), to_decimal(self.coop_buffer.capacity)));
        let mut accelerators = Vec::new();
        accelerators.push(Accelerator { kind: "Buffer".to_owned(), config });
        ClearnedStructure {
            learned: self.model.clone(),
            classical: "LSMTree".to_owned(),
            accelerators,
        }
    }

    /// The layout this index contributes to a design: the learned index
    /// itself.
    pub fn get_layout(&self) -> (layout: Vec<DataStructure>)
        ensures
            layout@.len() == 1,
            layout@[0] matches DataStructure::Learned { kind } && kind@ == self.model_name(),
    {
        let mut layout = Vec::new();
        layout.push(DataStructure::Learned { kind: self.model.clone() });
        layout
    }

    /// Name of the learned model.
    pub fn model(&self) -> (model: &String)
        ensures
            model@ == self.model_name(),
    {
        &self.model
    }

    /// Capacity of the write buffer, in bytes.
    pub fn buffer_capacity(&self) -> (capacity: u64)
        ensures
            capacity == self.capacity(),
    {
        self.coop_buffer.capacity
    }

    /// The bytes waiting in the write buffer.
    pub fn buffered_bytes(&self) -> (bytes: &Vec<u8>)
        ensures
            bytes@ == self.buffered(),
    {
        &self.coop_buffer.delta_buffer
    }
}

} // verus!
