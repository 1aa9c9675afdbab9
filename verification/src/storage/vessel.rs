use crate::storage::blob::Blob;
use crate::storage::bucket::{bucket_fits, bucket_start, Bucket, UnixTime};
use crate::storage::data_page::{writes, DataPage, PageView, PageWrite, PageWriteView};
use crate::storage::file_handle::FileHandle;
use crate::storage::file_system::{all_named, named_starts, FileSystem, IndexView, StorageError};
use crate::storage::record::{decode_all, ByteOrder};
use vstd::prelude::*;

verus! {

/// What a [`Vessel`] is, as a value: the index of its page files and the page
/// it is writing to.
pub struct VesselView {
    pub index: IndexView,
    pub current: Option<PageView>,
}

/// Whether the bucket of every sample can be addressed.
pub open spec fn all_fit(blobs: Seq<Blob>, page_length: i64) -> bool {
    forall|i: int|
        0 <= i < blobs.len() ==> bucket_fits(
            (#[trigger] blobs[i]).timestamp as int,
            page_length as int,
        )
}

impl VesselView {
    /// The bucket that a timestamp falls into.
    pub open spec fn bucket_of(self, time: i64) -> Bucket {
        Bucket {
            val: bucket_start(time as int, self.index.page_length as int) as i64,
            interval: self.index.page_length,
        }
    }

    /// Pages have a positive width. The current page is bound to a bucket of
    /// that width which has a file, and to that file; every sample in its
    /// buffer falls into its bucket.
    pub open spec fn wf(self) -> bool {
        &&& self.index.page_length > 0
        &&& match self.current {
            Some(page) => {
                &&& page.bucket.interval == self.index.page_length
                &&& self.index.starts.contains(page.bucket.val)
                &&& page.file == self.index.handle(page.bucket.val)
                &&& forall|i: int|
                    0 <= i < page.data.len() ==> bucket_start(
                        (#[trigger] page.data[i]).timestamp as int,
                        self.index.page_length as int,
                    ) == page.bucket.val
            },
            None => true,
        }
    }

    /// One sample written: the vessel afterwards, and what is to reach the disk.
    ///
    /// A sample of the current page's bucket joins that page's buffer. Any
    /// other sample turns the page: the current page is flushed, the sample's
    /// bucket gets a file if it has none, and its page becomes the current one.
    pub open spec fn put(self, blob: Blob) -> (VesselView, Seq<PageWriteView>) {
        let bucket = self.bucket_of(blob.timestamp);
        match self.current {
            Some(page) if page.bucket == bucket => (
                VesselView { current: Some(page.with(blob)), ..self },
                Seq::empty(),
            ),
            Some(page) => (
                VesselView {
                    index: self.index.with(bucket.val),
                    current: Some(self.index.page(bucket).with(blob)),
                },
                page.flushed(self.index.order) + self.index.created(bucket.val),
            ),
            None => (
                VesselView {
                    index: self.index.with(bucket.val),
                    current: Some(self.index.page(bucket).with(blob)),
                },
                self.index.created(bucket.val),
            ),
        }
    }

    /// A batch written sample by sample, in the batch's order.
    pub open spec fn write(self, blobs: Seq<Blob>) -> (VesselView, Seq<PageWriteView>)
        decreases blobs.len(),
    {
        if blobs.len() == 0 {
            (self, Seq::empty())
        } else {
            let (before, head) = self.write(blobs.drop_last());
            let (after, tail) = before.put(blobs.last());
            (after, head + tail)
        }
    }

    /// The current page flushed.
    pub open spec fn flush(self) -> (VesselView, Seq<PageWriteView>) {
        match self.current {
            Some(page) => (
                VesselView { current: Some(PageView { data: Seq::empty(), ..page }), ..self },
                page.flushed(self.index.order),
            ),
            None => (self, Seq::empty()),
        }
    }
}

/// A vessel stays well formed when a sample is written whose bucket can be addressed.
pub proof fn lemma_put_wf(vessel: VesselView, blob: Blob)
    requires
        vessel.wf(),
        bucket_fits(blob.timestamp as int, vessel.index.page_length as int),
    ensures
        vessel.put(blob).0.wf(),
{
    let bucket = vessel.bucket_of(blob.timestamp);
    let after = vessel.put(blob).0;
    let page = after.current.unwrap();
    crate::storage::bucket::lemma_start_is_multiple(
        blob.timestamp as int,
        vessel.index.page_length as int,
    );
    assert forall|i: int| 0 <= i < page.data.len() implies bucket_start(
        (#[trigger] page.data[i]).timestamp as int,
        after.index.page_length as int,
    ) == page.bucket.val by {
        if i < page.data.len() - 1 {
            match vessel.current {
                Some(old_page) => {
                    if old_page.bucket == bucket {
                        assert(page.data[i] == old_page.data[i]);
                    }
                },
                None => {},
            }
        }
    }
}

/// A vessel stays well formed over a whole batch.
pub proof fn lemma_write_wf(vessel: VesselView, blobs: Seq<Blob>)
    requires
        vessel.wf(),
        all_fit(blobs, vessel.index.page_length),
    ensures
        vessel.write(blobs).0.wf(),
        vessel.write(blobs).0.index.page_length == vessel.index.page_length,
        vessel.write(blobs).0.index.order == vessel.index.order,
        vessel.write(blobs).0.index.dir == vessel.index.dir,
    decreases blobs.len(),
{
    if blobs.len() > 0 {
        assert(all_fit(blobs.drop_last(), vessel.index.page_length)) by {
            assert forall|i: int| 0 <= i < blobs.drop_last().len() implies bucket_fits(
                (#[trigger] blobs.drop_last()[i]).timestamp as int,
                vessel.index.page_length as int,
            ) by {
                assert(blobs.drop_last()[i] == blobs[i]);
            }
        }
        lemma_write_wf(vessel, blobs.drop_last());
        assert(bucket_fits(blobs.last().timestamp as int, vessel.index.page_length as int)) by {
            assert(blobs.last() == blobs[blobs.len() - 1]);
        }
        lemma_put_wf(vessel.write(blobs.drop_last()).0, blobs.last());
    }
}

/// The samples of a run of batches, one batch after the other.
pub open spec fn concat(batches: Seq<Seq<Blob>>) -> Seq<Blob>
    decreases batches.len(),
{
    if batches.len() == 0 {
        Seq::empty()
    } else {
        concat(batches.drop_last()) + batches.last()
    }
}

/// Whether the bucket of every sample of two runs can be addressed, given
/// that it can of every sample of the two in a row.
pub proof fn lemma_all_fit_split(first: Seq<Blob>, second: Seq<Blob>, page_length: i64)
    ensures
        all_fit(first + second, page_length) <==> all_fit(first, page_length) && all_fit(
            second,
            page_length,
        ),
{
    let whole = first + second;
    if all_fit(whole, page_length) {
        assert forall|i: int| 0 <= i < first.len() implies bucket_fits(
            (#[trigger] first[i]).timestamp as int,
            page_length as int,
        ) by {
            assert(whole[i] == first[i]);
        }
        assert forall|i: int| 0 <= i < second.len() implies bucket_fits(
            (#[trigger] second[i]).timestamp as int,
            page_length as int,
        ) by {
            assert(whole[first.len() + i] == second[i]);
        }
    }
    if all_fit(first, page_length) && all_fit(second, page_length) {
        assert forall|i: int| 0 <= i < whole.len() implies bucket_fits(
            (#[trigger] whole[i]).timestamp as int,
            page_length as int,
        ) by {
            if i < first.len() {
                assert(whole[i] == first[i]);
            } else {
                assert(whole[i] == second[i - first.len()]);
            }
        }
    }
}

/// Writing a batch in two parts is writing it whole: the vessel is the same
/// afterwards, and the same reaches the disk in the same order.
pub proof fn lemma_write_split(vessel: VesselView, first: Seq<Blob>, second: Seq<Blob>)
    ensures
        vessel.write(first + second) == ({
            let (mid, head) = vessel.write(first);
            let (end, tail) = mid.write(second);
            (end, head + tail)
        }),
    decreases second.len(),
{
    let (mid, head) = vessel.write(first);
    if second.len() == 0 {
        assert(first + second =~= first);
        assert(head + Seq::<PageWriteView>::empty() =~= head);
    } else {
        let whole = first + second;
        assert(whole.drop_last() =~= first + second.drop_last());
        assert(whole.last() == second.last());
        lemma_write_split(vessel, first, second.drop_last());
        let (before, tail) = mid.write(second.drop_last());
        let (after, last) = before.put(second.last());
        assert((head + tail) + last =~= head + (tail + last));
    }
}

/// The samples that a list of page writes carries, in order.
pub open spec fn carried(written: Seq<PageWriteView>, order: ByteOrder) -> Seq<Blob>
    decreases written.len(),
{
    if written.len() == 0 {
        Seq::empty()
    } else {
        carried(written.drop_last(), order) + decode_all(written.last().bytes, order)
    }
}

/// The samples that wait in a vessel's current page.
pub open spec fn held(vessel: VesselView) -> Seq<Blob> {
    match vessel.current {
        Some(page) => page.data,
        None => Seq::empty(),
    }
}

/// Whether every page write goes to the file of the bucket that each of its
/// samples falls into.
pub open spec fn routed(written: Seq<PageWriteView>, index: IndexView) -> bool {
    forall|w: int, i: int|
        0 <= w < written.len() && 0 <= i < decode_all(written[w].bytes, index.order).len() ==> {
            let blob = #[trigger] decode_all(written[w].bytes, index.order)[i];
            written[w].file == index.handle(
                bucket_start(blob.timestamp as int, index.page_length as int) as i64,
            )
        }
}

/// The samples of two lists of page writes in a row.
pub proof fn lemma_carried_add(first: Seq<PageWriteView>, second: Seq<PageWriteView>, order: ByteOrder)
    ensures
        carried(first + second, order) == carried(first, order) + carried(second, order),
    decreases second.len(),
{
    if second.len() == 0 {
        assert(first + second =~= first);
        assert(carried(first, order) + Seq::<Blob>::empty() =~= carried(first, order));
    } else {
        assert((first + second).drop_last() =~= first + second.drop_last());
        assert((first + second).last() == second.last());
        lemma_carried_add(first, second.drop_last(), order);
        assert(carried(first, order) + carried(second.drop_last(), order) + decode_all(
            second.last().bytes,
            order,
        ) =~= carried(first, order) + (carried(second.drop_last(), order) + decode_all(
            second.last().bytes,
            order,
        )));
    }
}

/// What one sample's write carries: the samples that waited in the page that
/// was turned, if one was turned, and nothing else.
proof fn lemma_put_carries(vessel: VesselView, blob: Blob)
    requires
        vessel.wf(),
        bucket_fits(blob.timestamp as int, vessel.index.page_length as int),
    ensures
        carried(vessel.put(blob).1, vessel.index.order) + held(vessel.put(blob).0) == held(vessel)
            + seq![blob],
        routed(vessel.put(blob).1, vessel.index),
        vessel.put(blob).0.index.order == vessel.index.order,
        vessel.put(blob).0.index.page_length == vessel.index.page_length,
        vessel.put(blob).0.index.dir == vessel.index.dir,
{
    let order = vessel.index.order;
    let bucket = vessel.bucket_of(blob.timestamp);
    let written = vessel.put(blob).1;
    let none = Seq::<Blob>::empty();
    let made = vessel.index.created(bucket.val);
    assert(carried(Seq::<PageWriteView>::empty(), order) == none);
    assert(decode_all(Seq::<u8>::empty(), order) =~= none);
    assert(carried(made, order) =~= none) by {
        if made.len() > 0 {
            assert(made.drop_last() =~= Seq::<PageWriteView>::empty());
        }
    }
    match vessel.current {
        Some(page) => {
            if page.bucket == bucket {
                assert(none + page.data.push(blob) =~= page.data + seq![blob]);
            } else {
                let flushed = page.flushed(order);
                lemma_carried_add(flushed, made, order);
                assert(carried(flushed, order) =~= page.data) by {
                    if page.data.len() > 0 {
                        crate::storage::record::lemma_page_round_trip(page.data, order);
                        assert(flushed.drop_last() =~= Seq::<PageWriteView>::empty());
                        assert(none + page.data =~= page.data);
                    }
                }
                assert(page.data + none + none.push(blob) =~= page.data + seq![blob]);
                assert forall|w: int, i: int|
                    0 <= w < written.len() && 0 <= i < decode_all(
                        written[w].bytes,
                        order,
                    ).len() implies {
                    let sample = #[trigger] decode_all(written[w].bytes, order)[i];
                    written[w].file == vessel.index.handle(
                        bucket_start(sample.timestamp as int, vessel.index.page_length as int) as i64,
                    )
                } by {
                    if w < flushed.len() {
                        crate::storage::record::lemma_page_round_trip(page.data, order);
                        let sample = page.data[i];
                        assert(bucket_start(
                            sample.timestamp as int,
                            vessel.index.page_length as int,
                        ) == page.bucket.val);
                    }
                }
            }
        },
        None => {
            assert(none + none.push(blob) =~= none + seq![blob]);
        },
    }
}

/// Nothing is lost and nothing changes place: the samples that a batch's
/// writes carry, followed by those that wait in the current page afterwards,
/// are those that waited before, followed by the batch. Every write goes to
/// the file of the bucket of its samples.
pub proof fn lemma_write_carries(vessel: VesselView, blobs: Seq<Blob>)
    requires
        vessel.wf(),
        all_fit(blobs, vessel.index.page_length),
    ensures
        carried(vessel.write(blobs).1, vessel.index.order) + held(vessel.write(blobs).0) == held(
            vessel,
        ) + blobs,
        routed(vessel.write(blobs).1, vessel.index),
    decreases blobs.len(),
{
    let order = vessel.index.order;
    if blobs.len() == 0 {
        assert(carried(Seq::<PageWriteView>::empty(), order) + held(vessel) =~= held(vessel)
            + blobs);
    } else {
        let front = blobs.drop_last();
        let last = blobs.last();
        lemma_all_fit_split(front, seq![last], vessel.index.page_length);
        assert(front + seq![last] =~= blobs);
        lemma_write_carries(vessel, front);
        lemma_write_wf(vessel, front);
        let (before, head) = vessel.write(front);
        assert(bucket_fits(last.timestamp as int, vessel.index.page_length as int)) by {
            assert(seq![last][0] == last);
        }
        lemma_put_carries(before, last);
        let (after, tail) = before.put(last);
        lemma_carried_add(head, tail, order);
        assert(carried(head, order) + carried(tail, order) + held(after) =~= carried(head, order)
            + (carried(tail, order) + held(after)));
        assert(carried(head, order) + (held(before) + seq![last]) =~= carried(head, order) + held(
            before,
        ) + seq![last]);
        assert(held(vessel) + front + seq![last] =~= held(vessel) + blobs);
        assert forall|w: int, i: int|
            0 <= w < (head + tail).len() && 0 <= i < decode_all(
                (head + tail)[w].bytes,
                order,
            ).len() implies {
            let sample = #[trigger] decode_all((head + tail)[w].bytes, order)[i];
            (head + tail)[w].file == vessel.index.handle(
                bucket_start(sample.timestamp as int, vessel.index.page_length as int) as i64,
            )
        } by {
            if w < head.len() {
                assert((head + tail)[w] == head[w]);
                let sample = decode_all(head[w].bytes, order)[i];
            } else {
                assert((head + tail)[w] == tail[w - head.len()]);
                let sample = decode_all(tail[w - head.len()].bytes, before.index.order)[i];
            }
        }
    }
}

/// The samples of a run that fall into the bucket that starts at `start`, in order.
pub open spec fn of_bucket(blobs: Seq<Blob>, page_length: i64, start: i64) -> Seq<Blob>
    decreases blobs.len(),
{
    if blobs.len() == 0 {
        Seq::empty()
    } else {
        let front = of_bucket(blobs.drop_last(), page_length, start);
        if bucket_start(blobs.last().timestamp as int, page_length as int) == start {
            front.push(blobs.last())
        } else {
            front
        }
    }
}

/// The samples that a list of page writes carries to one file, in order.
pub open spec fn carried_to(
    written: Seq<PageWriteView>,
    file: crate::storage::file_handle::FileView,
    order: ByteOrder,
) -> Seq<Blob>
    decreases written.len(),
{
    if written.len() == 0 {
        Seq::empty()
    } else {
        carried_to(written.drop_last(), file, order) + if written.last().file == file {
            decode_all(written.last().bytes, order)
        } else {
            Seq::empty()
        }
    }
}

/// The samples of one bucket in two runs in a row.
pub proof fn lemma_of_bucket_add(first: Seq<Blob>, second: Seq<Blob>, page_length: i64, start: i64)
    ensures
        of_bucket(first + second, page_length, start) == of_bucket(first, page_length, start)
            + of_bucket(second, page_length, start),
    decreases second.len(),
{
    let head = of_bucket(first, page_length, start);
    if second.len() == 0 {
        assert(first + second =~= first);
        assert(head + Seq::<Blob>::empty() =~= head);
    } else {
        assert((first + second).drop_last() =~= first + second.drop_last());
        assert((first + second).last() == second.last());
        lemma_of_bucket_add(first, second.drop_last(), page_length, start);
        let tail = of_bucket(second.drop_last(), page_length, start);
        assert((head + tail).push(second.last()) =~= head + tail.push(second.last()));
    }
}

/// What two lists of page writes in a row carry to one file.
pub proof fn lemma_carried_to_add(
    first: Seq<PageWriteView>,
    second: Seq<PageWriteView>,
    file: crate::storage::file_handle::FileView,
    order: ByteOrder,
)
    ensures
        carried_to(first + second, file, order) == carried_to(first, file, order) + carried_to(
            second,
            file,
            order,
        ),
    decreases second.len(),
{
    let head = carried_to(first, file, order);
    if second.len() == 0 {
        assert(first + second =~= first);
        assert(head + Seq::<Blob>::empty() =~= head);
    } else {
        assert((first + second).drop_last() =~= first + second.drop_last());
        assert((first + second).last() == second.last());
        lemma_carried_to_add(first, second.drop_last(), file, order);
        let tail = carried_to(second.drop_last(), file, order);
        let last = if second.last().file == file {
            decode_all(second.last().bytes, order)
        } else {
            Seq::empty()
        };
        assert((head + tail) + last =~= head + (tail + last));
    }
}

/// Of samples that all fall into one bucket, that bucket has all and every
/// other bucket has none.
pub proof fn lemma_of_one_bucket(blobs: Seq<Blob>, page_length: i64, own: i64, start: i64)
    requires
        forall|i: int|
            0 <= i < blobs.len() ==> bucket_start(
                (#[trigger] blobs[i]).timestamp as int,
                page_length as int,
            ) == own,
    ensures
        of_bucket(blobs, page_length, start) == if own == start {
            blobs
        } else {
            Seq::empty()
        },
    decreases blobs.len(),
{
    if blobs.len() > 0 {
        assert forall|i: int| 0 <= i < blobs.drop_last().len() implies bucket_start(
            (#[trigger] blobs.drop_last()[i]).timestamp as int,
            page_length as int,
        ) == own by {
            assert(blobs.drop_last()[i] == blobs[i]);
        }
        lemma_of_one_bucket(blobs.drop_last(), page_length, own, start);
        assert(blobs.last() == blobs[blobs.len() - 1]);
        if own == start {
            assert(blobs.drop_last().push(blobs.last()) =~= blobs);
        }
    }
}

/// Two buckets that start apart have different files.
pub proof fn lemma_files_differ(index: IndexView, first: i64, second: i64)
    ensures
        index.handle(first) == index.handle(second) ==> first == second,
{
    crate::storage::file_handle::lemma_names_differ(first, second);
    crate::storage::file_handle::lemma_paths_differ(
        index.dir,
        crate::storage::file_handle::decimal(first as int),
        crate::storage::file_handle::decimal(second as int),
    );
}

/// What one sample's write carries to the file of a bucket.
proof fn lemma_put_carries_to(vessel: VesselView, blob: Blob, start: i64)
    requires
        vessel.wf(),
        bucket_fits(blob.timestamp as int, vessel.index.page_length as int),
    ensures
        carried_to(vessel.put(blob).1, vessel.index.handle(start), vessel.index.order) + of_bucket(
            held(vessel.put(blob).0),
            vessel.index.page_length,
            start,
        ) == of_bucket(held(vessel), vessel.index.page_length, start) + of_bucket(
            seq![blob],
            vessel.index.page_length,
            start,
        ),
{
    let order = vessel.index.order;
    let length = vessel.index.page_length;
    let file = vessel.index.handle(start);
    let bucket = vessel.bucket_of(blob.timestamp);
    let none = Seq::<Blob>::empty();
    let made = vessel.index.created(bucket.val);
    let one = of_bucket(seq![blob], length, start);
    assert(seq![blob].drop_last() =~= none);
    assert(of_bucket(none, length, start) == none);
    assert(carried_to(Seq::<PageWriteView>::empty(), file, order) == none);
    assert(decode_all(Seq::<u8>::empty(), order) =~= none);
    assert(carried_to(made, file, order) =~= none) by {
        if made.len() > 0 {
            assert(made.drop_last() =~= Seq::<PageWriteView>::empty());
        }
    }
    assert(one =~= if bucket.val == start {
        seq![blob]
    } else {
        none
    });
    match vessel.current {
        Some(page) => {
            lemma_of_one_bucket(page.data, length, page.bucket.val, start);
            if page.bucket == bucket {
                assert(page.data.push(blob).drop_last() =~= page.data);
                assert(none + of_bucket(page.data.push(blob), length, start) =~= of_bucket(
                    page.data,
                    length,
                    start,
                ) + one);
            } else {
                let flushed = page.flushed(order);
                lemma_carried_to_add(flushed, made, file, order);
                lemma_files_differ(vessel.index, page.bucket.val, start);
                assert(carried_to(flushed, file, order) =~= of_bucket(page.data, length, start)) by {
                    if page.data.len() > 0 {
                        crate::storage::record::lemma_page_round_trip(page.data, order);
                        assert(flushed.drop_last() =~= Seq::<PageWriteView>::empty());
                        assert(none + page.data =~= page.data);
                        assert(none + none =~= none);
                    }
                }
                assert(none.push(blob) =~= seq![blob]);
                assert(of_bucket(page.data, length, start) + none + one =~= of_bucket(
                    page.data,
                    length,
                    start,
                ) + one);
            }
        },
        None => {
            assert(none.push(blob) =~= seq![blob]);
            assert(none + one =~= none + one);
        },
    }
}

/// Every bucket gets its own samples: what a batch's writes carry to the
/// file of a bucket, followed by the samples of the bucket that wait in the
/// current page afterwards, are the samples of the bucket that waited
/// before, followed by those of the batch, in the batch's order.
pub proof fn lemma_write_carries_to(vessel: VesselView, blobs: Seq<Blob>, start: i64)
    requires
        vessel.wf(),
        all_fit(blobs, vessel.index.page_length),
    ensures
        carried_to(vessel.write(blobs).1, vessel.index.handle(start), vessel.index.order)
            + of_bucket(held(vessel.write(blobs).0), vessel.index.page_length, start) == of_bucket(
            held(vessel),
            vessel.index.page_length,
            start,
        ) + of_bucket(blobs, vessel.index.page_length, start),
    decreases blobs.len(),
{
    let order = vessel.index.order;
    let length = vessel.index.page_length;
    let file = vessel.index.handle(start);
    let waited = of_bucket(held(vessel), length, start);
    if blobs.len() == 0 {
        assert(carried_to(Seq::<PageWriteView>::empty(), file, order) + waited =~= waited
            + Seq::<Blob>::empty());
    } else {
        let front = blobs.drop_last();
        let last = blobs.last();
        lemma_all_fit_split(front, seq![last], length);
        assert(front + seq![last] =~= blobs);
        lemma_write_carries_to(vessel, front, start);
        lemma_write_wf(vessel, front);
        let (before, head) = vessel.write(front);
        assert(bucket_fits(last.timestamp as int, length as int)) by {
            assert(seq![last][0] == last);
        }
        lemma_put_carries_to(before, last, start);
        let (after, tail) = before.put(last);
        lemma_carried_to_add(head, tail, file, order);
        lemma_of_bucket_add(front, seq![last], length, start);
        let a = carried_to(head, file, order);
        let b = carried_to(tail, before.index.handle(start), order);
        let c = of_bucket(held(after), length, start);
        let d = of_bucket(held(before), length, start);
        let e = of_bucket(seq![last], length, start);
        assert(before.index.handle(start) == file);
        assert(a + b + c =~= a + (b + c));
        assert(a + (d + e) =~= a + d + e);
        assert(waited + of_bucket(front, length, start) + e =~= waited + (of_bucket(
            front,
            length,
            start,
        ) + e));
    }
}

/// The storage of one stream: the index of its page files and the page that
/// is being written.
pub struct Vessel {
    path: String,
    file_system: FileSystem,
    current_page: Option<DataPage>,
    page_length: i64,
}

impl View for Vessel {
    type V = VesselView;

    closed spec fn view(&self) -> VesselView {
        VesselView {
            index: self.file_system@,
            current: match self.current_page {
                Some(page) => Some(page@),
                None => None,
            },
        }
    }
}

impl Vessel {
    /// The index is well formed, and so is the vessel as a value.
    pub closed spec fn wf(&self) -> bool {
        &&& self.file_system.wf()
        &&& self@.wf()
        &&& self.page_length == self.file_system@.page_length
        &&& self.path@ == self.file_system@.dir
    }

    /// A well-formed vessel is well formed as a value, and has the files of
    /// finitely many buckets.
    pub proof fn lemma_view_wf(&self)
        requires
            self.wf(),
        ensures
            self@.wf(),
            self@.index.starts.finite(),
    {
        self.file_system.lemma_view_finite();
    }

    /// Whether `opened` is what opening a stream's storage gives: an error
    /// for a page width that is not positive, and else for the first entry of
    /// the directory that does not name a page file; else the vessel that has
    /// a file for each start that the entries name, and whose current page is
    /// the empty page of the most recent bucket, if there is any bucket.
    pub open spec fn opens(
        path: Seq<char>,
        page_length: i64,
        order: ByteOrder,
        names: Seq<String>,
        opened: Result<Vessel, StorageError>,
    ) -> bool {
        match opened {
            Ok(vessel) => {
                &&& vessel.wf()
                &&& page_length > 0
                &&& all_named(names, names.len() as int)
                &&& vessel@.index == (IndexView {
                    dir: path,
                    page_length,
                    order,
                    starts: named_starts(names, names.len() as int),
                })
                &&& match vessel@.current {
                    Some(page) => vessel@.index.is_last(page.bucket.val) && page
                        == vessel@.index.page(vessel@.index.handle(page.bucket.val).bucket),
                    None => names.len() == 0,
                }
            },
            Err(StorageError::BadPageLength) => page_length <= 0,
            Err(StorageError::BadFileName(at)) => {
                &&& page_length > 0
                &&& at < names.len()
                &&& crate::storage::file_handle::page_start(names[at as int]@) is None
                &&& all_named(names, at as int)
            },
            Err(_) => false,
        }
    }

    /// Opens the storage of a stream from the names of the entries of its directory.
    pub fn new(path: String, page_length: i64, order: ByteOrder, names: &Vec<String>) -> (opened:
        Result<Vessel, StorageError>)
        ensures
            Vessel::opens(path@, page_length, order, names@, opened),
    {
        if page_length <= 0 {
            return Err(StorageError::BadPageLength);
        }
        let dir = path.clone();
        match FileSystem::new(dir, page_length, order, names) {
            Ok((file_system, current_page)) => Ok(
                Vessel { path, file_system, current_page, page_length },
            ),
            Err(error) => Err(error),
        }
    }

    /// The directory of the stream.
    pub fn path(&self) -> (path: &String)
        requires
            self.wf(),
        ensures
            path@ == self@.index.dir,
    {
        &self.path
    }

    /// The width of a page.
    pub fn page_length(&self) -> (length: i64)
        requires
            self.wf(),
        ensures
            length == self@.index.page_length,
            length > 0,
    {
        self.page_length
    }

    /// The byte order of the page files.
    pub fn order(&self) -> (order: ByteOrder)
        ensures
            order == self@.index.order,
    {
        self.file_system.order()
    }

    /// The samples that wait in the current page's buffer.
    pub fn pending(&self) -> (blobs: Vec<Blob>)
        ensures
            blobs@ == match self@.current {
                Some(page) => page.data,
                None => Seq::empty(),
            },
    {
        match &self.current_page {
            Some(page) => page.pending().clone(),
            None => Vec::new(),
        }
    }

    /// Hands the current page's buffer over to be appended to its file.
    pub fn flush(&mut self, log: &mut Vec<PageWrite>)
        requires
            old(self).wf(),
        ensures
            final(self).wf(),
            final(self)@ == old(self)@.flush().0,
            writes(final(log)@) == writes(old(log)@) + old(self)@.flush().1,
    {
        let order = self.file_system.order();
        match self.current_page.take() {
            Some(page) => {
                let mut page = page;
                page.flush(order, log);
                self.current_page = Some(page);
            },
            None => {
                assert(writes(log@) + Seq::empty() =~= writes(log@));
            },
        }
    }

    /// Writes a batch, sample by sample. A batch that holds a sample whose
    /// bucket cannot be addressed is refused whole.
    pub fn write(&mut self, records: &Vec<Blob>, log: &mut Vec<PageWrite>) -> (done: Result<
        (),
        StorageError,
    >)
        requires
            old(self).wf(),
        ensures
            final(self).wf(),
            match done {
                Ok(()) => {
                    &&& all_fit(records@, old(self)@.index.page_length)
                    &&& final(self)@ == old(self)@.write(records@).0
                    &&& writes(final(log)@) == writes(old(log)@) + old(self)@.write(records@).1
                },
                Err(StorageError::TimestampOutOfRange(at)) => {
                    &&& at < records@.len()
                    &&& !bucket_fits(
                        records@[at as int].timestamp as int,
                        old(self)@.index.page_length as int,
                    )
                    &&& all_fit(records@.take(at as int), old(self)@.index.page_length)
                    &&& final(self)@ == old(self)@
                    &&& writes(final(log)@) == writes(old(log)@)
                },
                Err(_) => false,
            },
    {
        let mut k: usize = 0;
        while k < records.len()
            invariant
                k <= records@.len(),
                *self == *old(self),
                self.wf(),
                all_fit(records@.take(k as int), self.page_length),
            decreases records@.len() - k,
        {
            if !Bucket::fits(records[k].timestamp, self.page_length) {
                return Err(StorageError::TimestampOutOfRange(k));
            }
            assert(all_fit(records@.take(k + 1), self.page_length)) by {
                assert forall|i: int| 0 <= i < k + 1 implies bucket_fits(
                    (#[trigger] records@.take(k + 1)[i]).timestamp as int,
                    self.page_length as int,
                ) by {
                    if i < k {
                        assert(records@.take(k + 1)[i] == records@.take(k as int)[i]);
                    }
                }
            }
            k += 1;
        }
        assert(records@.take(records@.len() as int) =~= records@);
        let ghost start = self@;
        let ghost before = writes(log@);
        let mut this_page = self.current_page.take();
        let mut i: usize = 0;
        assert(records@.take(0) =~= Seq::empty());
        assert(before + Seq::empty() =~= before);
        while i < records.len()
            invariant
                i <= records@.len(),
                start.wf(),
                all_fit(records@, self.page_length),
                self.page_length == self.file_system@.page_length,
                self.path@ == self.file_system@.dir,
                self.file_system.wf(),
                seen(self.file_system@, this_page) == start.write(records@.take(i as int)).0,
                seen(self.file_system@, this_page).wf(),
                writes(log@) == before + start.write(records@.take(i as int)).1,
            decreases records@.len() - i,
        {
            let record = records[i];
            let ghost so_far = seen(self.file_system@, this_page);
            let ghost logged = writes(log@);
            proof {
                assert(records@.take(i + 1).drop_last() =~= records@.take(i as int));
                assert(records@.take(i + 1).last() == record);
                assert(records@[i as int] == record);
                assert(bucket_fits(record.timestamp as int, self.page_length as int));
                lemma_put_wf(so_far, record);
            }
            let record_bucket = Bucket::for_time(record.timestamp, self.page_length);
            let next_page = match this_page {
                Some(page) => {
                    if page.bucket() == record_bucket {
                        assert(logged + Seq::empty() =~= logged);
                        page
                    } else {
                        self.file_system.update_page(page, record_bucket, log)
                    }
                },
                None => self.file_system.create_page(record_bucket, log),
            };
            let mut next_page = next_page;
            next_page.write(record);
            this_page = Some(next_page);
            i += 1;
            proof {
                let step = so_far.put(record);
                assert(seen(self.file_system@, this_page) == step.0);
                assert(writes(log@) == logged + step.1);
                assert(before + start.write(records@.take(i - 1)).1 + step.1 =~= before + (
                start.write(records@.take(i - 1)).1 + step.1));
            }
        }
        self.current_page = this_page;
        Ok(())
    }

    /// The file of a bucket, if the bucket has one.
    pub fn file(&self, bucket: Bucket) -> (found: Option<FileHandle>)
        requires
            self.wf(),
        ensures
            match found {
                Some(handle) => self@.index.starts.contains(bucket.val) && handle@
                    == self@.index.handle(bucket.val),
                None => !self@.index.starts.contains(bucket.val),
            },
    {
        self.file_system.file(bucket)
    }

    /// The file of the most recent bucket, if there is any bucket.
    pub fn last_file(&self) -> (found: Option<FileHandle>)
        requires
            self.wf(),
        ensures
            match found {
                Some(handle) => self@.index.is_last(handle@.bucket.val) && handle@
                    == self@.index.handle(handle@.bucket.val),
                None => self@.index.starts.len() == 0,
            },
    {
        self.file_system.last_file()
    }

    /// The timestamp of the last sample on disk, where `raw` holds the bytes
    /// of the most recent bucket's file.
    pub fn get_last_time(&self, raw: &[u8]) -> (time: UnixTime)
        requires
            self.wf(),
        ensures
            time == self@.index.last_time(raw@),
    {
        self.file_system.get_last_time(raw)
    }

    /// A scan of the stream that starts behind `from`.
    pub fn read_from(&self, from: UnixTime) -> (scan: VesselIterator)
        requires
            self.wf(),
        ensures
            scan == self@.scan_from(from),
    {
        if Bucket::fits(from, self.page_length) {
            VesselIterator::new(Bucket::for_time(from, self.page_length), Some(from))
        } else {
            VesselIterator { bucket: None, start: Some(from) }
        }
    }
}

/// A vessel's value while its current page is held aside.
pub open spec fn seen(index: IndexView, page: Option<DataPage>) -> VesselView {
    VesselView {
        index,
        current: match page {
            Some(page) => Some(page@),
            None => None,
        },
    }
}

impl VesselView {
    /// Where a scan behind `from` begins: at the bucket that `from` falls
    /// into. Where that bucket cannot be addressed, the scan is over at once.
    pub open spec fn scan_from(self, from: i64) -> VesselIterator {
        VesselIterator {
            bucket: if bucket_fits(from as int, self.index.page_length as int) {
                Some(self.bucket_of(from))
            } else {
                None
            },
            start: Some(from),
        }
    }
}

/// The samples of a batch that lie behind `start`; the whole batch where no
/// start is given.
pub open spec fn behind(blobs: Seq<Blob>, start: Option<i64>) -> Seq<Blob> {
    match start {
        Some(start) => blobs.filter(later_than(start)),
        None => blobs,
    }
}

/// The test that a sample's timestamp is greater than `start`.
pub open spec fn later_than(start: i64) -> spec_fn(Blob) -> bool {
    |blob: Blob| blob.timestamp > start
}

/// A forward scan over the buckets of a stream, one batch for each bucket.
/// `bucket` is the bucket that is read next, none once no further bucket can
/// be addressed; `start` is set until the first batch has been handed out.
#[derive(PartialEq, Eq, Structural, Clone, Copy, Debug)]
pub struct VesselIterator {
    pub bucket: Option<Bucket>,
    pub start: Option<UnixTime>,
}

impl VesselIterator {
    /// A scan that reads `bucket` next and keeps of its first batch what lies
    /// behind `start`.
    pub fn new(bucket: Bucket, start: Option<UnixTime>) -> (scan: VesselIterator)
        ensures
            scan == (VesselIterator { bucket: Some(bucket), start }),
    {
        VesselIterator { bucket: Some(bucket), start }
    }

    /// Whether the scan has a batch to hand out: its bucket has a file.
    pub open spec fn live(self, index: IndexView) -> bool {
        self.bucket is Some && index.starts.contains(self.bucket.unwrap().val)
    }

    /// The batch that is handed out for a bucket whose file holds `raw`: the
    /// samples of the file, of which the first batch keeps only those behind
    /// the scan's start.
    pub open spec fn batch(self, index: IndexView, raw: Seq<u8>) -> Seq<Blob> {
        behind(decode_all(raw, index.order), self.start)
    }

    /// The scan after a batch was handed out: at the next bucket, without a start.
    pub open spec fn advanced(self) -> VesselIterator {
        let bucket = self.bucket.unwrap();
        VesselIterator {
            bucket: if bucket.val + bucket.interval <= i64::MAX && bucket.val + bucket.interval
                >= i64::MIN {
                Some(Bucket { val: (bucket.val + bucket.interval) as i64, interval: bucket.interval })
            } else {
                None
            },
            start: None,
        }
    }

    /// The file that `next` is to be given the bytes of; none where the scan
    /// has ended.
    pub fn file(&self, vessel: &Vessel) -> (found: Option<FileHandle>)
        requires
            vessel.wf(),
        ensures
            match found {
                Some(handle) => self.live(vessel@.index) && handle@ == vessel@.index.handle(
                    self.bucket.unwrap().val,
                ),
                None => !self.live(vessel@.index),
            },
    {
        match self.bucket {
            Some(bucket) => vessel.file(bucket),
            None => None,
        }
    }

    /// Hands out the batch of the scan's bucket, where `raw` holds the bytes
    /// of that bucket's file, and moves on to the next bucket. The scan ends,
    /// and stays where it is, at the first bucket that has no file.
    pub fn next(&mut self, vessel: &Vessel, raw: &[u8]) -> (batch: Option<Vec<Blob>>)
        requires
            vessel.wf(),
        ensures
            match batch {
                Some(blobs) => {
                    &&& old(self).live(vessel@.index)
                    &&& blobs@ == old(self).batch(vessel@.index, raw@)
                    &&& *final(self) == old(self).advanced()
                },
                None => !old(self).live(vessel@.index) && *final(self) == *old(self),
            },
    {
        let bucket = match self.bucket {
            Some(bucket) => bucket,
            None => {
                return None;
            },
        };
        if vessel.file(bucket).is_none() {
            return None;
        }
        let data = crate::storage::record::decode_page(raw, vessel.order());
        let data = match self.start {
            Some(start) => keep_behind(&data, start),
            None => data,
        };
        self.start = None;
        self.bucket = if bucket.has_next() {
            Some(bucket.next())
        } else {
            None
        };
        Some(data)
    }
}

/// The samples of a batch whose timestamp is greater than `start`, in order.
pub fn keep_behind(blobs: &Vec<Blob>, start: UnixTime) -> (kept: Vec<Blob>)
    ensures
        kept@ == behind(blobs@, Some(start)),
{
    let mut kept: Vec<Blob> = Vec::new();
    let mut i: usize = 0;
    proof {
        reveal(Seq::filter);
        assert(blobs@.take(0) =~= Seq::empty());
    }
    while i < blobs.len()
        invariant
            i <= blobs@.len(),
            kept@ == blobs@.take(i as int).filter(later_than(start)),
        decreases blobs@.len() - i,
    {
        let blob = blobs[i];
        proof {
            reveal(Seq::filter);
            assert(blobs@.take(i + 1).drop_last() =~= blobs@.take(i as int));
            assert(blobs@.take(i + 1).last() == blob);
        }
        if blob.timestamp > start {
            kept.push(blob);
        }
        i += 1;
    }
    assert(blobs@.take(blobs@.len() as int) =~= blobs@);
    kept
}

} // verus!
