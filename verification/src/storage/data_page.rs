use crate::storage::blob::Blob;
use crate::storage::bucket::Bucket;
use crate::storage::file_handle::{FileHandle, FileView};
use crate::storage::record::{decode_all, decode_page, encode_all, encode_page, ByteOrder};
use vstd::prelude::*;

verus! {

/// Bytes that are to be appended to a page file; a file that does not exist
/// yet is to be created first. The library hands these out in the order in
/// which they are to reach the disk.
#[derive(Debug)]
pub struct PageWrite {
    pub file: FileHandle,
    pub bytes: Vec<u8>,
}

/// A page write as a value.
pub struct PageWriteView {
    pub file: FileView,
    pub bytes: Seq<u8>,
}

impl View for PageWrite {
    type V = PageWriteView;

    open spec fn view(&self) -> PageWriteView {
        PageWriteView { file: self.file@, bytes: self.bytes@ }
    }
}

/// A list of page writes as values.
pub open spec fn writes(log: Seq<PageWrite>) -> Seq<PageWriteView> {
    log.map_values(|w: PageWrite| w@)
}

/// A page as a value: the bucket it is bound to, its file, and the samples
/// that wait in its buffer.
pub struct PageView {
    pub bucket: Bucket,
    pub file: FileView,
    pub data: Seq<Blob>,
}

impl PageView {
    /// The page with one more sample in its buffer.
    pub open spec fn with(self, record: Blob) -> PageView {
        PageView { data: self.data.push(record), ..self }
    }

    /// What a flush appends: the buffered samples' records, to the page's
    /// file. Nothing where the buffer is empty.
    pub open spec fn flushed(self, order: ByteOrder) -> Seq<PageWriteView> {
        if self.data.len() == 0 {
            Seq::empty()
        } else {
            seq![PageWriteView { file: self.file, bytes: encode_all(self.data, order) }]
        }
    }
}

/// The buffered unit of reading and writing, bound to one bucket and one file.
#[derive(Debug)]
pub struct DataPage {
    bucket: Bucket,
    file: FileHandle,
    data: Vec<Blob>,
}

impl View for DataPage {
    type V = PageView;

    closed spec fn view(&self) -> PageView {
        PageView { bucket: self.bucket, file: self.file@, data: self.data@ }
    }
}

impl DataPage {
    /// The page of a bucket over its file, with an empty buffer.
    pub fn open_page(bucket: Bucket, file: FileHandle) -> (page: DataPage)
        ensures
            page@ == (PageView { bucket, file: file@, data: Seq::empty() }),
    {
        DataPage { bucket, file, data: Vec::new() }
    }

    /// The bucket that the page is bound to.
    pub fn bucket(&self) -> (bucket: Bucket)
        ensures
            bucket == self@.bucket,
    {
        self.bucket
    }

    /// The file that the page is flushed to.
    pub fn file(&self) -> (file: &FileHandle)
        ensures
            file@ == self@.file,
    {
        &self.file
    }

    /// The samples in the page's file, whose bytes are `raw`.
    pub fn read(&self, raw: &[u8], order: ByteOrder) -> (blobs: Vec<Blob>)
        ensures
            blobs@ == decode_all(raw@, order),
    {
        decode_page(raw, order)
    }

    /// The samples that wait in the buffer.
    pub fn pending(&self) -> (blobs: &Vec<Blob>)
        ensures
            blobs@ == self@.data,
    {
        &self.data
    }

    /// Puts a sample into the buffer.
    pub fn write(&mut self, record: Blob)
        ensures
            final(self)@ == old(self)@.with(record),
    {
        self.data.push(record);
    }

    /// Hands the buffered samples over to be appended to the page's file and
    /// empties the buffer.
    pub fn flush(&mut self, order: ByteOrder, log: &mut Vec<PageWrite>)
        ensures
            final(self)@ == (PageView { data: Seq::empty(), ..old(self)@ }),
            writes(final(log)@) == writes(old(log)@) + old(self)@.flushed(order),
    {
        if self.data.len() == 0 {
            assert(self.data@ =~= Seq::empty());
            assert(writes(log@) + Seq::empty() =~= writes(log@));
            return ;
        }
        let bytes = encode_page(&self.data, order);
        let ghost before = log@;
        let write = PageWrite { file: self.file.share(), bytes };
        log.push(write);
        self.data.clear();
        assert(writes(log@) =~= writes(before) + seq![write@]);
    }

    /// Flushes the page and binds its buffer to another bucket and file.
    pub fn update(
        self,
        bucket: Bucket,
        file: FileHandle,
        order: ByteOrder,
        log: &mut Vec<PageWrite>,
    ) -> (page: DataPage)
        ensures
            page@ == (PageView { bucket, file: file@, data: Seq::empty() }),
            writes(final(log)@) == writes(old(log)@) + self@.flushed(order),
    {
        let mut old_page = self;
        old_page.flush(order, log);
        DataPage { bucket, file, data: old_page.data }
    }
}

} // verus!
