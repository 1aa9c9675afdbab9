use crate::storage::blob::Blob;
use crate::storage::bucket::{Bucket, UnixTime};
use crate::storage::data_page::{writes, DataPage, PageView, PageWrite, PageWriteView};
use crate::storage::file_handle::{
    decimal, file_name, join_path, joined, page_of_name, page_start, FileHandle, FileView,
};
use crate::storage::record::{decode_all, decode_page, ByteOrder};
use std::collections::BTreeMap;
use vstd::prelude::*;

verus! {

broadcast use {vstd::laws_cmp::group_laws_cmp, vstd::std_specs::btree::group_btree_axioms};

/// Why a stream's storage could not be opened or written.
#[derive(PartialEq, Eq, Structural, Clone, Copy, Debug)]
pub enum StorageError {
    /// The directory entry at this position does not name a page file.
    BadFileName(usize),
    /// The width of a page is not positive.
    BadPageLength,
    /// The sample at this position has a timestamp whose bucket cannot be addressed.
    TimestampOutOfRange(usize),
}

/// The timestamp reported for a stream that holds no sample.
pub const NO_DATA: UnixTime = 0;

/// What a [`FileSystem`] is, as a value: its directory, how wide a page is,
/// the byte order of its files, and the starts of the buckets that have a file.
pub struct IndexView {
    pub dir: Seq<char>,
    pub page_length: i64,
    pub order: ByteOrder,
    pub starts: Set<i64>,
}

impl IndexView {
    /// The handle of the file of the bucket that starts at `start`: the file
    /// lies in the stream's directory and is named by the start.
    pub open spec fn handle(self, start: i64) -> FileView {
        FileView {
            path: joined(self.dir, decimal(start as int)),
            bucket: Bucket { val: start, interval: self.page_length },
        }
    }

    /// The empty page of a bucket.
    pub open spec fn page(self, bucket: Bucket) -> PageView {
        PageView { bucket, file: self.handle(bucket.val), data: Seq::empty() }
    }

    /// The index with the bucket that starts at `start` in it.
    pub open spec fn with(self, start: i64) -> IndexView {
        IndexView { starts: self.starts.insert(start), ..self }
    }

    /// What registering a bucket writes: an empty write that creates its file,
    /// unless the bucket has one already.
    pub open spec fn created(self, start: i64) -> Seq<PageWriteView> {
        if self.starts.contains(start) {
            Seq::empty()
        } else {
            seq![PageWriteView { file: self.handle(start), bytes: Seq::empty() }]
        }
    }

    /// Whether `start` is the start of the most recent bucket that has a file.
    pub open spec fn is_last(self, start: i64) -> bool {
        self.starts.contains(start) && forall|other: i64|
            self.starts.contains(other) ==> other <= start
    }

    /// The samples of a bucket, given the bytes of its file: none where the
    /// bucket has no file.
    pub open spec fn samples(self, start: i64, raw: Seq<u8>) -> Seq<Blob> {
        if self.starts.contains(start) {
            decode_all(raw, self.order)
        } else {
            Seq::empty()
        }
    }

    /// The timestamp of the last sample, given the bytes of the most recent
    /// bucket's file: `NO_DATA` where there is no file or no sample in it.
    pub open spec fn last_time(self, raw: Seq<u8>) -> i64 {
        let blobs = decode_all(raw, self.order);
        if self.starts.len() == 0 || blobs.len() == 0 {
            NO_DATA
        } else {
            blobs.last().timestamp
        }
    }
}

/// The bucket starts that the first `count` names of a directory spell out.
pub open spec fn named_starts(names: Seq<String>, count: int) -> Set<i64> {
    Set::new(
        |start: i64|
            exists|i: int| 0 <= i < count && #[trigger] page_start(names[i]@) == Some(start),
    )
}

/// Whether every one of the first `count` names is the name of a page file.
pub open spec fn all_named(names: Seq<String>, count: int) -> bool {
    forall|i: int| 0 <= i < count ==> (#[trigger] page_start(names[i]@)) is Some
}

/// One more name read adds the start that it spells out.
pub proof fn lemma_one_more_name(names: Seq<String>, count: int, start: i64)
    requires
        0 <= count < names.len(),
        page_start(names[count]@) == Some(start),
    ensures
        named_starts(names, count + 1) == named_starts(names, count).insert(start),
{
    let more = named_starts(names, count + 1);
    let grown = named_starts(names, count).insert(start);
    assert forall|other: i64| more.contains(other) implies grown.contains(other) by {
        let k = choose|k: int|
            0 <= k < count + 1 && #[trigger] page_start(names[k]@) == Some(other);
        if k < count {
            assert(named_starts(names, count).contains(other));
        }
    }
    assert forall|other: i64| grown.contains(other) implies more.contains(other) by {
        if other != start {
            let k = choose|k: int|
                0 <= k < count && #[trigger] page_start(names[k]@) == Some(other);
            assert(0 <= k < count + 1);
        }
    }
    assert(more =~= grown);
}

/// The index from buckets to page files of one stream.
pub struct FileSystem {
    path: String,
    page_length: i64,
    order: ByteOrder,
    files: BTreeMap<i64, FileHandle>,
}

impl View for FileSystem {
    type V = IndexView;

    closed spec fn view(&self) -> IndexView {
        IndexView {
            dir: self.path@,
            page_length: self.page_length,
            order: self.order,
            starts: self.files@.dom(),
        }
    }
}

/// `BTreeMap::last_key_value`, of which the key is kept: the greatest key of
/// the map, and none where the map is empty.
#[verifier::external_body]
fn last_key(files: &BTreeMap<i64, FileHandle>) -> (last: Option<i64>)
    ensures
        match last {
            Some(start) => files@.contains_key(start) && forall|other: i64|
                files@.contains_key(other) ==> other <= start,
            None => files@.dom() == Set::<i64>::empty(),
        },
{
    files.last_key_value().map(|entry| *entry.0)
}

impl FileSystem {
    /// Every bucket in the index has the handle of its own file.
    pub closed spec fn wf(&self) -> bool {
        forall|start: i64| #[trigger]
            self.files@.contains_key(start) ==> self.files@[start]@ == self@.handle(start)
    }

    /// The index holds the files of finitely many buckets.
    pub proof fn lemma_view_finite(&self)
        ensures
            self@.starts.finite(),
    {
    }

    /// Builds the index of a stream from the names of the entries of its
    /// directory, and opens the page of the most recent bucket.
    pub fn new(path: String, page_length: i64, order: ByteOrder, names: &Vec<String>) -> (opened:
        Result<(FileSystem, Option<DataPage>), StorageError>)
        ensures
            match opened {
                Ok((index, page)) => {
                    &&& index.wf()
                    &&& all_named(names@, names@.len() as int)
                    &&& index@ == (IndexView {
                        dir: path@,
                        page_length,
                        order,
                        starts: named_starts(names@, names@.len() as int),
                    })
                    &&& match page {
                        Some(page) => index@.is_last(page@.bucket.val) && page@ == index@.page(
                            index@.handle(page@.bucket.val).bucket,
                        ),
                        None => names@.len() == 0,
                    }
                },
                Err(StorageError::BadFileName(at)) => {
                    &&& at < names@.len()
                    &&& page_start(names@[at as int]@) is None
                    &&& all_named(names@, at as int)
                },
                Err(_) => false,
            },
    {
        let mut files: BTreeMap<i64, FileHandle> = BTreeMap::new();
        let ghost shape = IndexView { dir: path@, page_length, order, starts: Set::empty() };
        let mut i: usize = 0;
        while i < names.len()
            invariant
                i <= names@.len(),
                shape.dir == path@,
                shape.page_length == page_length,
                all_named(names@, i as int),
                files@.dom() =~= named_starts(names@, i as int),
                forall|start: i64| #[trigger]
                    files@.contains_key(start) ==> files@[start]@ == shape.handle(start),
            decreases names@.len() - i,
        {
            let start = match page_of_name(&names[i]) {
                Some(start) => start,
                None => {
                    return Err(StorageError::BadFileName(i));
                },
            };
            let name = file_name(start);
            let handle = FileHandle::new(
                join_path(path.as_str(), name.as_str()),
                Bucket::new(start, page_length),
            );
            files.insert(start, handle);
            i += 1;
            proof {
                assert(page_start(names@[i - 1]@) == Some(start));
                lemma_one_more_name(names@, i - 1, start);
            }
        }
        let index = FileSystem { path, page_length, order, files };
        let page = match index.last_file() {
            Some(handle) => Some(DataPage::open_page(handle.bucket, handle)),
            None => {
                proof {
                    if names@.len() > 0 {
                        let first = page_start(names@[0]@).unwrap();
                        assert(named_starts(names@, names@.len() as int).contains(first));
                    }
                }
                None
            },
        };
        Ok((index, page))
    }

    /// The directory of the stream.
    pub fn path(&self) -> (path: &String)
        ensures
            path@ == self@.dir,
    {
        &self.path
    }

    /// The width of a page.
    pub fn page_length(&self) -> (length: i64)
        ensures
            length == self@.page_length,
    {
        self.page_length
    }

    /// The byte order of the page files.
    pub fn order(&self) -> (order: ByteOrder)
        ensures
            order == self@.order,
    {
        self.order
    }

    /// The file of a bucket, if the bucket has one.
    pub fn file(&self, bucket: Bucket) -> (found: Option<FileHandle>)
        requires
            self.wf(),
        ensures
            match found {
                Some(handle) => self@.starts.contains(bucket.val) && handle@ == self@.handle(
                    bucket.val,
                ),
                None => !self@.starts.contains(bucket.val),
            },
    {
        match self.files.get(&bucket.val) {
            Some(handle) => Some(handle.share()),
            None => None,
        }
    }

    /// The file of the most recent bucket, if there is any bucket.
    pub fn last_file(&self) -> (found: Option<FileHandle>)
        requires
            self.wf(),
        ensures
            match found {
                Some(handle) => self@.is_last(handle@.bucket.val) && handle@ == self@.handle(
                    handle@.bucket.val,
                ),
                None => self@.starts.len() == 0,
            },
    {
        match last_key(&self.files) {
            Some(start) => self.file(Bucket::new(start, self.page_length)),
            None => None,
        }
    }

    /// The samples of a bucket, where `raw` holds the bytes of the bucket's
    /// file: none where the bucket has no file.
    pub fn read(&self, bucket: Bucket, raw: &[u8]) -> (blobs: Vec<Blob>)
        requires
            self.wf(),
        ensures
            blobs@ == self@.samples(bucket.val, raw@),
    {
        match self.file(bucket) {
            Some(handle) => {
                let page = DataPage::open_page(bucket, handle);
                page.read(raw, self.order)
            },
            None => Vec::new(),
        }
    }

    /// The timestamp of the last sample of the most recent bucket, where `raw`
    /// holds the bytes of that bucket's file.
    pub fn get_last_time(&self, raw: &[u8]) -> (time: UnixTime)
        requires
            self.wf(),
        ensures
            time == self@.last_time(raw@),
    {
        match self.last_file() {
            Some(handle) => {
                let records = decode_page(raw, self.order);
                if records.len() == 0 {
                    return NO_DATA;
                }
                assert(self@.starts.contains(handle@.bucket.val));
                assert(self@.starts.len() > 0) by {
                    if self@.starts.len() == 0 {
                        assert(self@.starts =~= Set::empty()) by {
                            self@.starts.lemma_len0_is_empty();
                        }
                    }
                }
                records[records.len() - 1].timestamp
            },
            None => NO_DATA,
        }
    }

    /// The page of a bucket. A bucket that has no file yet gets one, which is
    /// to be created.
    pub fn create_page(&mut self, bucket: Bucket, log: &mut Vec<PageWrite>) -> (page: DataPage)
        requires
            old(self).wf(),
        ensures
            final(self).wf(),
            final(self)@ == old(self)@.with(bucket.val),
            writes(final(log)@) == writes(old(log)@) + old(self)@.created(bucket.val),
            page@ == old(self)@.page(bucket),
    {
        match self.file(bucket) {
            Some(handle) => {
                assert(self@.with(bucket.val).starts =~= self@.starts);
                assert(writes(log@) + Seq::empty() =~= writes(log@));
                DataPage::open_page(bucket, handle)
            },
            None => {
                let handle = self.create(bucket, log);
                DataPage::open_page(bucket, handle)
            },
        }
    }

    /// Flushes a page and hands out the page of another bucket, which keeps the
    /// buffer of the first. This is how a stream moves from one bucket to the next.
    pub fn update_page(&mut self, page: DataPage, bucket: Bucket, log: &mut Vec<PageWrite>) -> (next:
        DataPage)
        requires
            old(self).wf(),
        ensures
            final(self).wf(),
            final(self)@ == old(self)@.with(bucket.val),
            writes(final(log)@) == writes(old(log)@) + page@.flushed(old(self)@.order)
                + old(self)@.created(bucket.val),
            next@ == old(self)@.page(bucket),
    {
        let ghost before = writes(log@);
        let handle = match self.file(bucket) {
            Some(handle) => {
                assert(self@.with(bucket.val).starts =~= self@.starts);
                handle
            },
            None => {
                proof {
                    assert(before + Seq::empty() =~= before);
                }
                let mut made: Vec<PageWrite> = Vec::new();
                let handle = self.create(bucket, &mut made);
                let next = page.update(bucket, handle, self.order, log);
                let ghost flushed = writes(log@);
                log.append(&mut made);
                proof {
                    assert(writes(log@) =~= flushed + old(self)@.created(bucket.val));
                }
                return next;
            },
        };
        let next = page.update(bucket, handle, self.order, log);
        assert(writes(log@) + Seq::empty() =~= writes(log@));
        next
    }

    /// Registers the file of a bucket that has none.
    fn create(&mut self, bucket: Bucket, log: &mut Vec<PageWrite>) -> (handle: FileHandle)
        requires
            old(self).wf(),
            !old(self)@.starts.contains(bucket.val),
        ensures
            final(self).wf(),
            final(self)@ == old(self)@.with(bucket.val),
            writes(final(log)@) == writes(old(log)@) + old(self)@.created(bucket.val),
            handle@ == old(self)@.handle(bucket.val),
    {
        let name = file_name(bucket.val);
        let handle = FileHandle::new(
            join_path(self.path.as_str(), name.as_str()),
            Bucket::new(bucket.val, self.page_length),
        );
        let ghost before = writes(log@);
        let write = PageWrite { file: handle.share(), bytes: Vec::new() };
        log.push(write);
        self.files.insert(bucket.val, handle.share());
        proof {
            assert(writes(log@) =~= before + seq![write@]);
            assert(self@.starts =~= old(self)@.starts.insert(bucket.val));
        }
        handle
    }
}

} // verus!
