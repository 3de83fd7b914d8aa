//! Sorted runs: the bytes of one immutable table file and what is known of
//! the table without reading them.

use crate::key::KeyBytes;
use vstd::prelude::*;

verus! {

/// Why a read from a table file fails.
#[derive(Debug, Clone, Copy, PartialEq, Eq, Structural)]
pub enum ReadError {
    /// The range does not lie within the file.
    OutOfBounds,
}

/// The bytes of one table file, with their number kept at hand. The bytes
/// never change, so reads at different places do not affect one another.
pub struct FileObject(Vec<u8>, u64);

impl View for FileObject {
    type V = Seq<u8>;

    /// The file's bytes.
    closed spec fn view(&self) -> Seq<u8> {
        self.0@
    }
}

impl FileObject {
    /// The number kept at hand is the number of bytes.
    #[verifier::type_invariant]
    spec fn size_is_cached(&self) -> bool {
        self.1 == self.0@.len()
    }

    /// The file that holds exactly `data`.
    pub fn new(data: Vec<u8>) -> (file: Self)
        ensures
            file@ == data@,
    {
        let size = data.len() as u64;
        FileObject(data, size)
    }

    /// The `len` bytes that start at `offset`, if that range lies within
    /// the file.
    pub fn read(&self, offset: u64, len: u64) -> (r: Result<Vec<u8>, ReadError>)
        ensures
            match r {
                Ok(bytes) => offset + len <= self@.len() && bytes@ == self@.subrange(
                    offset as int,
                    offset + len,
                ),
                Err(ReadError::OutOfBounds) => offset + len > self@.len(),
            },
    {
        proof {
            use_type_invariant(self);
        }
        let data = self.0.as_slice();
        if offset > self.1 || len > self.1 - offset {
            return Err(ReadError::OutOfBounds);
        }
        assert(offset + len <= data.len());
        let start = offset as usize;
        let end = start + len as usize;
        Ok(vstd::slice::slice_to_vec(vstd::slice::slice_subrange(data, start, end)))
    }

    /// The number of bytes in the file.
    pub fn size(&self) -> (n: u64)
        ensures
            n == self@.len(),
    {
        proof {
            use_type_invariant(self);
        }
        self.1
    }
}

/// Where one data block starts in the file, and the first key it holds.
pub struct BlockMeta {
    offset: usize,
    first_key: KeyBytes,
}

impl BlockMeta {
    /// The block's start, as plain value.
    pub closed spec fn spec_offset(&self) -> usize {
        self.offset
    }

    /// The block's first key, as plain values.
    pub closed spec fn spec_first_key(&self) -> (Seq<u8>, u64) {
        self.first_key@
    }

    /// A block that starts at `offset` and whose first key is `first_key`.
    pub fn new(offset: usize, first_key: KeyBytes) -> (meta: Self)
        ensures
            meta.spec_offset() == offset,
            meta.spec_first_key() == first_key@,
    {
        BlockMeta { offset, first_key }
    }

    /// Where the block starts in the file.
    pub fn offset(&self) -> (offset: usize)
        ensures
            offset == self.spec_offset(),
    {
        self.offset
    }

    /// The first key of the block.
    pub fn first_key(&self) -> (key: &KeyBytes)
        ensures
            key@ == self.spec_first_key(),
    {
        &self.first_key
    }
}

/// One immutable sorted run: its file, the list of its blocks, and the key
/// range and newest version it holds.
pub struct SsTable {
    file: FileObject,
    block_meta: Vec<BlockMeta>,
    block_meta_offset: usize,
    id: usize,
    first_key: KeyBytes,
    last_key: KeyBytes,
    max_ts: u64,
}

/// What a table is made of, as plain values.
pub struct SsTableView {
    pub file: Seq<u8>,
    pub blocks: Seq<(usize, (Seq<u8>, u64))>,
    pub block_meta_offset: usize,
    pub id: usize,
    pub first_key: (Seq<u8>, u64),
    pub last_key: (Seq<u8>, u64),
    pub max_ts: u64,
}

/// The blocks of a list as plain values: start and first key of each.
pub open spec fn blocks_of(metas: Seq<BlockMeta>) -> Seq<(usize, (Seq<u8>, u64))> {
    Seq::new(metas.len(), |i: int| (metas[i].spec_offset(), metas[i].spec_first_key()))
}

impl View for SsTable {
    type V = SsTableView;

    /// The table's parts as plain values.
    closed spec fn view(&self) -> SsTableView {
        SsTableView {
            file: self.file@,
            blocks: blocks_of(self.block_meta@),
            block_meta_offset: self.block_meta_offset,
            id: self.id,
            first_key: self.first_key@,
            last_key: self.last_key@,
            max_ts: self.max_ts,
        }
    }
}

impl SsTable {
    /// Puts a table together from its parts.
    pub fn new(
        id: usize,
        file: FileObject,
        block_meta: Vec<BlockMeta>,
        block_meta_offset: usize,
        first_key: KeyBytes,
        last_key: KeyBytes,
        max_ts: u64,
    ) -> (table: Self)
        ensures
            table@ == (SsTableView {
                file: file@,
                blocks: blocks_of(block_meta@),
                block_meta_offset,
                id,
                first_key: first_key@,
                last_key: last_key@,
                max_ts,
            }),
    {
        SsTable { file, block_meta, block_meta_offset, id, first_key, last_key, max_ts }
    }

    /// The table's file.
    pub fn file(&self) -> (file: &FileObject)
        ensures
            file@ == self@.file,
    {
        &self.file
    }

    /// The table's blocks, in file order.
    pub fn block_meta(&self) -> (metas: &[BlockMeta])
        ensures
            blocks_of(metas@) == self@.blocks,
    {
        self.block_meta.as_slice()
    }

    /// Where the list of blocks starts in the file.
    pub fn block_meta_offset(&self) -> (offset: usize)
        ensures
            offset == self@.block_meta_offset,
    {
        self.block_meta_offset
    }

    /// The table's identifier.
    pub fn id(&self) -> (id: usize)
        ensures
            id == self@.id,
    {
        self.id
    }

    /// The smallest key in the table.
    pub fn first_key(&self) -> (key: &KeyBytes)
        ensures
            key@ == self@.first_key,
    {
        &self.first_key
    }

    /// The largest key in the table.
    pub fn last_key(&self) -> (key: &KeyBytes)
        ensures
            key@ == self@.last_key,
    {
        &self.last_key
    }

    /// The newest version in the table.
    pub fn max_ts(&self) -> (ts: u64)
        ensures
            ts == self@.max_ts,
    {
        self.max_ts
    }
}

} // verus!
