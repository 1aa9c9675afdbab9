use crate::storage::blob::Blob;
use crate::storage::bucket::{bucket_fits, bucket_start};
use crate::storage::data_page::PageWriteView;
use crate::storage::file_handle::FileView;
use crate::storage::file_system::IndexView;
use crate::storage::record::{
    decode_all, encode_all, lemma_decode_appended, lemma_encode_len, lemma_page_round_trip,
    ByteOrder,
};
use crate::storage::vessel::{
    all_fit, carried_to, held, lemma_all_fit_split, lemma_carried_to_add, lemma_files_differ,
    lemma_of_bucket_add, lemma_of_one_bucket, lemma_write_carries_to, lemma_write_wf, of_bucket,
    VesselIterator, VesselView,
};
use vstd::prelude::*;

verus! {

/// The files of a store as values: what each path holds.
pub type Files = Map<Seq<char>, Seq<u8>>;

/// What a file holds; nothing where there is no file.
pub open spec fn content(files: Files, path: Seq<char>) -> Seq<u8> {
    if files.contains_key(path) {
        files[path]
    } else {
        Seq::empty()
    }
}

/// The files after a list of page writes was carried out, in order: each
/// write appends its bytes to its file, which it makes if it is missing.
pub open spec fn appended(files: Files, written: Seq<PageWriteView>) -> Files
    decreases written.len(),
{
    if written.len() == 0 {
        files
    } else {
        let before = appended(files, written.drop_last());
        let last = written.last();
        before.insert(last.file.path, content(before, last.file.path) + last.bytes)
    }
}

/// Whether every page write goes to a page file of the index and carries
/// whole records.
pub open spec fn whole(written: Seq<PageWriteView>, index: IndexView) -> bool {
    forall|w: int|
        0 <= w < written.len() ==> (#[trigger] written[w]).file == index.handle(
            written[w].file.bucket.val,
        ) && written[w].bytes == encode_all(
            decode_all(written[w].bytes, index.order),
            index.order,
        )
}

/// What a page file holds after page writes were carried out: the samples
/// that it held, and behind them those that the writes carried to it.
pub proof fn lemma_appended_holds(
    files: Files,
    written: Seq<PageWriteView>,
    index: IndexView,
    start: i64,
)
    requires
        whole(written, index),
        content(files, index.handle(start).path).len() % 16 == 0,
    ensures
        content(appended(files, written), index.handle(start).path).len() % 16 == 0,
        decode_all(content(appended(files, written), index.handle(start).path), index.order)
            == decode_all(content(files, index.handle(start).path), index.order) + carried_to(
            written,
            index.handle(start),
            index.order,
        ),
    decreases written.len(),
{
    let order = index.order;
    let file = index.handle(start);
    let held_before = decode_all(content(files, file.path), order);
    if written.len() == 0 {
        assert(held_before + Seq::<Blob>::empty() =~= held_before);
    } else {
        let front = written.drop_last();
        let last = written.last();
        assert(last == written[written.len() - 1]);
        assert forall|w: int| 0 <= w < front.len() implies (#[trigger] front[w]).file
            == index.handle(front[w].file.bucket.val) && front[w].bytes == encode_all(
            decode_all(front[w].bytes, order),
            order,
        ) by {
            assert(front[w] == written[w]);
        }
        lemma_appended_holds(files, front, index, start);
        let before = appended(files, front);
        let page = content(before, file.path);
        let blobs = decode_all(last.bytes, order);
        lemma_encode_len(blobs, order);
        if last.file.path == file.path {
            lemma_files_differ(index, last.file.bucket.val, start);
            crate::storage::file_handle::lemma_names_differ(last.file.bucket.val, start);
            crate::storage::file_handle::lemma_paths_differ(
                index.dir,
                crate::storage::file_handle::decimal(last.file.bucket.val as int),
                crate::storage::file_handle::decimal(start as int),
            );
            assert(last.file == file);
            lemma_decode_appended(page, blobs, Seq::empty(), order);
            assert(page + encode_all(blobs, order) + Seq::<u8>::empty() =~= page + last.bytes);
            assert(held_before + carried_to(front, file, order) + blobs =~= held_before + (
            carried_to(front, file, order) + blobs));
        } else {
            assert(held_before + carried_to(front, file, order) + Seq::<Blob>::empty()
                =~= held_before + carried_to(front, file, order));
        }
    }
}

/// Whether a bucket has a file once a batch was written: it had one, or the
/// batch brought a sample of it.
pub open spec fn indexed_with(index: IndexView, blobs: Seq<Blob>, start: i64) -> bool {
    index.starts.contains(start) || of_bucket(blobs, index.page_length, start).len() > 0
}

/// The writes of one sample go to page files of the index and carry whole
/// records; the index gains the bucket of the sample and stays as it is
/// otherwise.
proof fn lemma_put_whole(vessel: VesselView, blob: Blob)
    requires
        vessel.wf(),
        bucket_fits(blob.timestamp as int, vessel.index.page_length as int),
    ensures
        whole(vessel.put(blob).1, vessel.index),
        vessel.put(blob).0.index == (IndexView {
            starts: vessel.put(blob).0.index.starts,
            ..vessel.index
        }),
        vessel.put(blob).0.index.starts == vessel.index.starts.insert(
            bucket_start(blob.timestamp as int, vessel.index.page_length as int) as i64,
        ),
{
    let order = vessel.index.order;
    let written = vessel.put(blob).1;
    let bucket = vessel.bucket_of(blob.timestamp);
    let none = Seq::<Blob>::empty();
    assert(decode_all(Seq::<u8>::empty(), order) =~= none);
    assert(encode_all(none, order) =~= Seq::<u8>::empty());
    match vessel.current {
        Some(page) => {
            lemma_page_round_trip(page.data, order);
            if page.bucket == bucket {
                assert(vessel.index.starts.insert(bucket.val) =~= vessel.index.starts);
            }
        },
        None => {},
    }
    assert forall|w: int| 0 <= w < written.len() implies (#[trigger] written[w]).file
        == vessel.index.handle(written[w].file.bucket.val) && written[w].bytes == encode_all(
        decode_all(written[w].bytes, order),
        order,
    ) by {}
}

/// Two lists of page writes that go to page files and carry whole records do
/// so in a row.
proof fn lemma_whole_add(first: Seq<PageWriteView>, second: Seq<PageWriteView>, index: IndexView)
    requires
        whole(first, index),
        whole(second, index),
    ensures
        whole(first + second, index),
{
    let both = first + second;
    assert forall|w: int| 0 <= w < both.len() implies (#[trigger] both[w]).file == index.handle(
        both[w].file.bucket.val,
    ) && both[w].bytes == encode_all(decode_all(both[w].bytes, index.order), index.order) by {
        if w < first.len() {
            assert(both[w] == first[w]);
        } else {
            assert(both[w] == second[w - first.len()]);
        }
    }
}

/// The writes of a batch go to page files of the index and carry whole
/// records. The index gains the buckets of the batch's samples and stays as
/// it is otherwise.
pub proof fn lemma_write_whole(vessel: VesselView, blobs: Seq<Blob>)
    requires
        vessel.wf(),
        all_fit(blobs, vessel.index.page_length),
    ensures
        whole(vessel.write(blobs).1, vessel.index),
        vessel.write(blobs).0.wf(),
        vessel.write(blobs).0.index == (IndexView {
            starts: vessel.write(blobs).0.index.starts,
            ..vessel.index
        }),
        forall|start: i64| #[trigger]
            vessel.write(blobs).0.index.starts.contains(start) == indexed_with(
                vessel.index,
                blobs,
                start,
            ),
    decreases blobs.len(),
{
    let length = vessel.index.page_length;
    if blobs.len() > 0 {
        let front = blobs.drop_last();
        let last = blobs.last();
        lemma_all_fit_split(front, seq![last], length);
        assert(front + seq![last] =~= blobs);
        assert(bucket_fits(last.timestamp as int, length as int)) by {
            assert(seq![last][0] == last);
        }
        lemma_write_whole(vessel, front);
        lemma_write_wf(vessel, front);
        let before = vessel.write(front).0;
        lemma_put_whole(before, last);
        let head = vessel.write(front).1;
        let tail = before.put(last).1;
        assert(before.index.handle(0) == vessel.index.handle(0));
        assert(whole(tail, vessel.index)) by {
            assert forall|w: int| 0 <= w < tail.len() implies (#[trigger] tail[w]).file
                == vessel.index.handle(tail[w].file.bucket.val) && tail[w].bytes == encode_all(
                decode_all(tail[w].bytes, vessel.index.order),
                vessel.index.order,
            ) by {
                assert(before.index.handle(tail[w].file.bucket.val) == vessel.index.handle(
                    tail[w].file.bucket.val,
                ));
            }
        }
        lemma_whole_add(head, tail, vessel.index);
        crate::storage::vessel::lemma_put_wf(before, last);
        assert forall|start: i64| #[trigger]
            vessel.write(blobs).0.index.starts.contains(start) == indexed_with(
                vessel.index,
                blobs,
                start,
            ) by {
            assert(before.index.starts.contains(start) == indexed_with(
                vessel.index,
                front,
                start,
            ));
        }
    }
}

/// After a batch was written and the vessel was flushed, and the writes
/// were carried out, the page file of every bucket holds the samples that it
/// held, behind them those of the bucket that waited in the vessel, and
/// behind them those of the bucket that the batch brought, in the batch's
/// order. The index has the buckets that it had and those of the batch.
pub proof fn lemma_files_hold_buckets(
    vessel: VesselView,
    blobs: Seq<Blob>,
    files: Files,
    start: i64,
)
    requires
        vessel.wf(),
        all_fit(blobs, vessel.index.page_length),
        content(files, vessel.index.handle(start).path).len() % 16 == 0,
    ensures
        ({
            let (after, first) = vessel.write(blobs);
            let (rest, second) = after.flush();
            let stored = appended(files, first + second);
            let path = vessel.index.handle(start).path;
            let length = vessel.index.page_length;
            &&& held(rest) == Seq::<Blob>::empty()
            &&& rest.wf()
            &&& rest.index == after.index
            &&& decode_all(content(stored, path), vessel.index.order) == decode_all(
                content(files, path),
                vessel.index.order,
            ) + of_bucket(held(vessel), length, start) + of_bucket(blobs, length, start)
            &&& rest.index.starts.contains(start) == indexed_with(vessel.index, blobs, start)
        }),
{
    let order = vessel.index.order;
    let length = vessel.index.page_length;
    let file = vessel.index.handle(start);
    let (after, first) = vessel.write(blobs);
    let (rest, second) = after.flush();
    let none = Seq::<Blob>::empty();
    lemma_write_whole(vessel, blobs);
    lemma_write_carries_to(vessel, blobs, start);
    assert(after.index.handle(start) == file);
    // The flush.
    assert(whole(second, vessel.index) && carried_to(second, file, order) == of_bucket(
        held(after),
        length,
        start,
    )) by {
        assert(carried_to(Seq::<PageWriteView>::empty(), file, order) == none);
        assert(of_bucket(none, length, start) == none);
        match after.current {
            Some(page) => {
                lemma_of_one_bucket(page.data, length, page.bucket.val, start);
                lemma_files_differ(vessel.index, page.bucket.val, start);
                lemma_page_round_trip(page.data, order);
                assert(after.index.handle(page.bucket.val) == vessel.index.handle(
                    page.bucket.val,
                ));
                if page.data.len() > 0 {
                    assert(second.drop_last() =~= Seq::<PageWriteView>::empty());
                    assert(none + page.data =~= page.data);
                    assert(none + none =~= none);
                }
                assert forall|w: int| 0 <= w < second.len() implies (#[trigger] second[w]).file
                    == vessel.index.handle(second[w].file.bucket.val) && second[w].bytes
                    == encode_all(decode_all(second[w].bytes, order), order) by {}
            },
            None => {},
        }
    }
    lemma_whole_add(first, second, vessel.index);
    lemma_carried_to_add(first, second, file, order);
    lemma_appended_holds(files, first + second, vessel.index, start);
    let before = decode_all(content(files, file.path), order);
    assert(before + (carried_to(first, file, order) + of_bucket(held(after), length, start))
        =~= before + of_bucket(held(vessel), length, start) + of_bucket(blobs, length, start));
    assert(after.index.starts.contains(start) == indexed_with(vessel.index, blobs, start));
}

/// The batches of a list, one after the other.
pub open spec fn flat(batches: Seq<Seq<Blob>>) -> Seq<Blob>
    decreases batches.len(),
{
    if batches.len() == 0 {
        Seq::empty()
    } else {
        batches.first() + flat(batches.drop_first())
    }
}

/// How far a scan is from the end of the buckets that can be addressed.
pub open spec fn scan_left(scan: VesselIterator) -> nat {
    match scan.bucket {
        Some(bucket) => (i64::MAX - bucket.val + 1) as nat,
        None => 0,
    }
}

/// Every batch that a scan hands out over the files of a stream, up to the
/// first bucket that has no file: for each bucket the samples of its file, of
/// which the first batch keeps those behind the scan's start.
pub open spec fn scanned(index: IndexView, files: Files, scan: VesselIterator) -> Seq<Seq<Blob>>
    decreases scan_left(scan),
    when scan.bucket is Some ==> scan.bucket.unwrap().interval > 0
{
    if !scan.live(index) {
        Seq::empty()
    } else {
        seq![scan.batch(index, content(files, index.handle(scan.bucket.unwrap().val).path))]
            + scanned(index, files, scan.advanced())
    }
}

/// The bucket start of a sample.
pub open spec fn start_of(blob: Blob, page_length: i64) -> int {
    bucket_start(blob.timestamp as int, page_length as int)
}

/// Whether no sample falls into an earlier bucket than a sample before it.
pub open spec fn climbing(blobs: Seq<Blob>, page_length: i64) -> bool {
    forall|i: int, j: int|
        0 <= i <= j < blobs.len() ==> start_of(#[trigger] blobs[i], page_length) <= start_of(
            #[trigger] blobs[j],
            page_length,
        )
}

/// Whether each sample falls into the bucket of the sample before it or into
/// the next: the samples leave no bucket out.
pub open spec fn dense(blobs: Seq<Blob>, page_length: i64) -> bool {
    forall|i: int|
        0 <= i < blobs.len() - 1 ==> start_of(#[trigger] blobs[i + 1], page_length) <= start_of(
            blobs[i],
            page_length,
        ) + page_length
}

/// Whether a bucket is stored as a run of samples asks: it has a file if
/// and only if the run has a sample of it, and its file holds the run's
/// samples of it.
pub open spec fn shelved(index: IndexView, files: Files, blobs: Seq<Blob>, start: i64) -> bool {
    &&& index.starts.contains(start) == (of_bucket(blobs, index.page_length, start).len() > 0)
    &&& decode_all(content(files, index.handle(start).path), index.order) == of_bucket(
        blobs,
        index.page_length,
        start,
    )
}

/// Of samples that climb from the bucket that starts at `start`, those of
/// that bucket come first, and every other lies in a later bucket.
pub proof fn lemma_first_bucket(blobs: Seq<Blob>, page_length: i64, start: i64)
    requires
        blobs.len() > 0,
        climbing(blobs, page_length),
        start_of(blobs[0], page_length) == start,
    ensures
        ({
            let own = of_bucket(blobs, page_length, start);
            &&& 0 < own.len() <= blobs.len()
            &&& own == blobs.take(own.len() as int)
            &&& forall|i: int|
                own.len() <= i < blobs.len() ==> start_of(#[trigger] blobs[i], page_length)
                    > start
        }),
    decreases blobs.len(),
{
    let own = of_bucket(blobs, page_length, start);
    let last = blobs.last();
    assert(last == blobs[blobs.len() - 1]);
    if start_of(last, page_length) == start {
        assert forall|i: int| 0 <= i < blobs.len() implies bucket_start(
            (#[trigger] blobs[i]).timestamp as int,
            page_length as int,
        ) == start by {
            assert(start_of(blobs[0], page_length) <= start_of(blobs[i], page_length));
            assert(start_of(blobs[i], page_length) <= start_of(blobs[blobs.len() - 1], page_length));
        }
        lemma_of_one_bucket(blobs, page_length, start, start);
        assert(blobs.take(blobs.len() as int) =~= blobs);
    } else {
        let front = blobs.drop_last();
        assert(start_of(blobs[0], page_length) <= start_of(blobs[blobs.len() - 1], page_length));
        assert(front.len() > 0);
        assert(front[0] == blobs[0]);
        assert forall|i: int, j: int| 0 <= i <= j < front.len() implies start_of(
            #[trigger] front[i],
            page_length,
        ) <= start_of(#[trigger] front[j], page_length) by {
            assert(front[i] == blobs[i] && front[j] == blobs[j]);
        }
        lemma_first_bucket(front, page_length, start);
        let k = own.len() as int;
        assert(blobs.take(k) =~= front.take(k));
        assert forall|i: int| own.len() <= i < blobs.len() implies start_of(
            #[trigger] blobs[i],
            page_length,
        ) > start by {
            if i < front.len() {
                assert(front[i] == blobs[i]);
            } else {
                assert(start_of(blobs[0], page_length) <= start_of(blobs[i], page_length));
            }
        }
    }
}

/// The samples of a bucket fall into that bucket.
pub proof fn lemma_own_in(blobs: Seq<Blob>, page_length: i64, start: i64)
    ensures
        forall|i: int|
            0 <= i < of_bucket(blobs, page_length, start).len() ==> bucket_start(
                (#[trigger] of_bucket(blobs, page_length, start)[i]).timestamp as int,
                page_length as int,
            ) == start,
    decreases blobs.len(),
{
    if blobs.len() > 0 {
        lemma_own_in(blobs.drop_last(), page_length, start);
        let front = of_bucket(blobs.drop_last(), page_length, start);
        let own = of_bucket(blobs, page_length, start);
        assert forall|i: int| 0 <= i < own.len() implies bucket_start(
            (#[trigger] own[i]).timestamp as int,
            page_length as int,
        ) == start by {
            if i < front.len() {
                assert(own[i] == front[i]);
            }
        }
    }
}

/// The batches of a list and of a batch before it.
pub proof fn lemma_flat_first(first: Seq<Blob>, batches: Seq<Seq<Blob>>)
    ensures
        flat(seq![first] + batches) == first + flat(batches),
{
    let all = seq![first] + batches;
    assert(all.first() == first);
    assert(all.drop_first() =~= batches);
}

/// A scan over buckets that are stored as a run of samples asks reads the
/// run back: where the samples climb from the scan's bucket and leave no
/// bucket out, the batches of the scan are the samples, in order, one batch
/// for each bucket.
pub proof fn lemma_scan_reads(index: IndexView, files: Files, blobs: Seq<Blob>, start: i64)
    requires
        index.page_length > 0,
        climbing(blobs, index.page_length),
        dense(blobs, index.page_length),
        blobs.len() > 0 ==> start_of(blobs[0], index.page_length) == start,
        forall|other: i64| other >= start ==> #[trigger] shelved(index, files, blobs, other),
    ensures
        flat(
            scanned(
                index,
                files,
                VesselIterator {
                    bucket: Some(
                        crate::storage::bucket::Bucket { val: start, interval: index.page_length },
                    ),
                    start: None,
                },
            ),
        ) == blobs,
    decreases blobs.len(),
{
    let length = index.page_length;
    let bucket = crate::storage::bucket::Bucket { val: start, interval: length };
    let scan = VesselIterator { bucket: Some(bucket), start: None };
    assert(shelved(index, files, blobs, start));
    if blobs.len() == 0 {
        assert(of_bucket(blobs, length, start).len() == 0);
        assert(!scan.live(index));
    } else {
        lemma_first_bucket(blobs, length, start);
        let own = of_bucket(blobs, length, start);
        let k = own.len() as int;
        let rest = blobs.skip(k);
        assert(blobs =~= own + rest);
        assert(scan.live(index));
        let batch = scan.batch(index, content(files, index.handle(start).path));
        assert(batch == own);
        let next = scan.advanced();
        lemma_flat_first(batch, scanned(index, files, next));
        if start + length <= i64::MAX {
            let later = (start + length) as i64;
            assert(next == (VesselIterator {
                bucket: Some(crate::storage::bucket::Bucket { val: later, interval: length }),
                start: None,
            }));
            assert forall|i: int, j: int| 0 <= i <= j < rest.len() implies start_of(
                #[trigger] rest[i],
                length,
            ) <= start_of(#[trigger] rest[j], length) by {
                assert(rest[i] == blobs[i + k] && rest[j] == blobs[j + k]);
            }
            assert forall|i: int| 0 <= i < rest.len() - 1 implies start_of(
                #[trigger] rest[i + 1],
                length,
            ) <= start_of(rest[i], length) + length by {
                assert(rest[i] == blobs[i + k] && rest[i + 1] == blobs[i + k + 1]);
            }
            if rest.len() > 0 {
                assert(rest[0] == blobs[k]);
                assert(blobs[k - 1] == own[k - 1]);
                assert(blobs.take(k)[k - 1] == blobs[k - 1]);
                lemma_own_in(blobs, length, start);
                assert(start_of(own[k - 1], length) == start);
                crate::storage::bucket::lemma_start_is_multiple(
                    blobs[0].timestamp as int,
                    length as int,
                );
                crate::storage::bucket::lemma_start_is_multiple(
                    blobs[k].timestamp as int,
                    length as int,
                );
                assert(start_of(blobs[k - 1 + 1], length) <= start_of(blobs[k - 1], length)
                    + length);
                vstd::arithmetic::div_mod::lemma_fundamental_div_mod(
                    blobs[k].timestamp as int,
                    length as int,
                );
                lemma_multiples_apart(start_of(blobs[k], length), start as int, length as int);
            }
            assert forall|other: i64| other >= later implies #[trigger] shelved(
                index,
                files,
                rest,
                other,
            ) by {
                assert(shelved(index, files, blobs, other));
                lemma_of_bucket_add(own, rest, length, other);
                lemma_own_in(blobs, length, start);
                lemma_of_one_bucket(own, length, start, other);
                assert(Seq::<Blob>::empty() + of_bucket(rest, length, other) =~= of_bucket(
                    rest,
                    length,
                    other,
                ));
            }
            lemma_scan_reads(index, files, rest, later);
        } else {
            assert(next.bucket is None);
            assert(!next.live(index));
            assert(scanned(index, files, next) =~= Seq::<Seq<Blob>>::empty());
            if rest.len() > 0 {
                assert(rest[0] == blobs[k]);
                assert(start_of(blobs[k], length) > start);
                vstd::arithmetic::div_mod::lemma_fundamental_div_mod(
                    blobs[k].timestamp as int,
                    length as int,
                );
                crate::storage::bucket::lemma_start_is_multiple(
                    blobs[0].timestamp as int,
                    length as int,
                );
                crate::storage::bucket::lemma_start_is_multiple(
                    blobs[k].timestamp as int,
                    length as int,
                );
                lemma_multiples_apart(start_of(blobs[k], length), start as int, length as int);
            }
            assert(own + Seq::<Blob>::empty() =~= own);
        }
    }
}

/// Two multiples of a width of which one is greater lie a width apart at least.
pub proof fn lemma_multiples_apart(greater: int, lesser: int, width: int)
    requires
        width > 0,
        greater % width == 0,
        lesser % width == 0,
        greater > lesser,
    ensures
        greater >= lesser + width,
{
    vstd::arithmetic::div_mod::lemma_fundamental_div_mod(greater, width);
    vstd::arithmetic::div_mod::lemma_fundamental_div_mod(lesser, width);
    let p = greater / width;
    let q = lesser / width;
    assert(p > q) by (nonlinear_arith)
        requires
            width > 0,
            width * p > width * q,
    ;
    assert(width * p >= width * q + width) by (nonlinear_arith)
        requires
            width > 0,
            p >= q + 1,
    ;
}

/// Of samples that all lie behind a start, those behind the start are all.
pub proof fn lemma_all_behind(blobs: Seq<Blob>, from: i64)
    requires
        forall|i: int| 0 <= i < blobs.len() ==> (#[trigger] blobs[i]).timestamp > from,
    ensures
        crate::storage::vessel::behind(blobs, Some(from)) == blobs,
    decreases blobs.len(),
{
    reveal(Seq::filter);
    if blobs.len() > 0 {
        let front = blobs.drop_last();
        assert forall|i: int| 0 <= i < front.len() implies (#[trigger] front[i]).timestamp
            > from by {
            assert(front[i] == blobs[i]);
        }
        lemma_all_behind(front, from);
        assert(blobs.last() == blobs[blobs.len() - 1]);
        assert(front.push(blobs.last()) =~= blobs);
    }
}

/// The first batch of a scan is all that the start of the scan makes it
/// differ by: a scan that begins behind `from`, in a bucket whose file holds
/// only samples behind `from`, hands out what the unfiltered scan of that
/// bucket hands out.
pub proof fn lemma_scan_from(index: IndexView, files: Files, bucket: crate::storage::bucket::Bucket, from: i64)
    requires
        bucket.interval > 0,
        index.starts.contains(bucket.val) ==> forall|i: int|
            0 <= i < decode_all(content(files, index.handle(bucket.val).path), index.order).len()
                ==> (#[trigger] decode_all(
                content(files, index.handle(bucket.val).path),
                index.order,
            )[i]).timestamp > from,
    ensures
        scanned(index, files, VesselIterator { bucket: Some(bucket), start: Some(from) })
            == scanned(index, files, VesselIterator { bucket: Some(bucket), start: None }),
{
    let filtered = VesselIterator { bucket: Some(bucket), start: Some(from) };
    let plain = VesselIterator { bucket: Some(bucket), start: None };
    if index.starts.contains(bucket.val) {
        lemma_all_behind(
            decode_all(content(files, index.handle(bucket.val).path), index.order),
            from,
        );
        assert(filtered.advanced() == plain.advanced());
    }
}

/// What is written is what a scan reads. Samples that climb through their
/// buckets and leave none out are written to a stream that holds nothing, the
/// stream is flushed, and the writes are carried out on a store without
/// files. A scan that begins behind `from`, in the bucket of the first
/// sample and before every sample, then hands out exactly the samples, in the
/// order in which they were written, one batch for each bucket.
pub proof fn lemma_round_trip(vessel: VesselView, blobs: Seq<Blob>, from: i64)
    requires
        vessel.wf(),
        vessel.current is None,
        vessel.index.starts == Set::<i64>::empty(),
        blobs.len() > 0,
        all_fit(blobs, vessel.index.page_length),
        climbing(blobs, vessel.index.page_length),
        dense(blobs, vessel.index.page_length),
        bucket_fits(from as int, vessel.index.page_length as int),
        bucket_start(from as int, vessel.index.page_length as int) == start_of(
            blobs[0],
            vessel.index.page_length,
        ),
        forall|i: int| 0 <= i < blobs.len() ==> (#[trigger] blobs[i]).timestamp > from,
    ensures
        ({
            let (after, first) = vessel.write(blobs);
            let (flushed, second) = after.flush();
            let stored = appended(Map::empty(), first + second);
            flat(scanned(flushed.index, stored, flushed.scan_from(from))) == blobs
        }),
{
    let length = vessel.index.page_length;
    let (after, first) = vessel.write(blobs);
    let (flushed, second) = after.flush();
    let none: Files = Map::empty();
    let stored = appended(none, first + second);
    let start = bucket_start(from as int, length as int) as i64;
    crate::storage::bucket::lemma_start_is_multiple(from as int, length as int);
    lemma_write_whole(vessel, blobs);
    assert(flushed.index == after.index);
    assert(flushed.index.handle(start) == vessel.index.handle(start));
    assert forall|other: i64| other >= start implies #[trigger] shelved(
        flushed.index,
        stored,
        blobs,
        other,
    ) by {
        lemma_files_hold_buckets(vessel, blobs, none, other);
        assert(flushed.index.handle(other) == vessel.index.handle(other));
        let empty = Seq::<Blob>::empty();
        assert(decode_all(Seq::<u8>::empty(), vessel.index.order) =~= empty);
        assert(of_bucket(empty, length, other) == empty);
        assert(empty + empty + of_bucket(blobs, length, other) =~= of_bucket(
            blobs,
            length,
            other,
        ));
    }
    lemma_scan_reads(flushed.index, stored, blobs, start);
    let bucket = crate::storage::bucket::Bucket { val: start, interval: length };
    assert(flushed.scan_from(from) == (VesselIterator { bucket: Some(bucket), start: Some(from) }));
    assert(shelved(flushed.index, stored, blobs, start));
    lemma_own_in(blobs, length, start);
    assert forall|i: int|
        0 <= i < decode_all(
            content(stored, flushed.index.handle(start).path),
            flushed.index.order,
        ).len() implies (#[trigger] decode_all(
        content(stored, flushed.index.handle(start).path),
        flushed.index.order,
    )[i]).timestamp > from by {
        let own = of_bucket(blobs, length, start);
        lemma_own_subset(blobs, length, start, i);
    }
    lemma_scan_from(flushed.index, stored, bucket, from);
}

/// A sample of a bucket is one of the samples.
pub proof fn lemma_own_subset(blobs: Seq<Blob>, page_length: i64, start: i64, i: int)
    requires
        0 <= i < of_bucket(blobs, page_length, start).len(),
    ensures
        exists|j: int|
            0 <= j < blobs.len() && #[trigger] blobs[j] == of_bucket(blobs, page_length, start)[i],
    decreases blobs.len(),
{
    if blobs.len() > 0 {
        let front = of_bucket(blobs.drop_last(), page_length, start);
        if i < front.len() {
            lemma_own_subset(blobs.drop_last(), page_length, start, i);
            let j = choose|j: int|
                0 <= j < blobs.drop_last().len() && #[trigger] blobs.drop_last()[j] == front[i];
            assert(blobs[j] == of_bucket(blobs, page_length, start)[i]);
        } else {
            assert(blobs[blobs.len() - 1] == of_bucket(blobs, page_length, start)[i]);
        }
    }
}

/// The batches of a list, one after the other, whichever end they are
/// counted from.
pub proof fn lemma_flat_is_concat(batches: Seq<Seq<Blob>>)
    ensures
        flat(batches) == crate::storage::vessel::concat(batches),
    decreases batches.len(),
{
    if batches.len() > 0 {
        lemma_flat_last(batches.drop_last(), batches.last());
        assert(batches.drop_last().push(batches.last()) =~= batches);
        lemma_flat_is_concat(batches.drop_last());
    }
}

/// The batches of a list and of a batch behind it.
pub proof fn lemma_flat_last(batches: Seq<Seq<Blob>>, last: Seq<Blob>)
    ensures
        flat(batches.push(last)) == flat(batches) + last,
    decreases batches.len(),
{
    let all = batches.push(last);
    if batches.len() == 0 {
        assert(all.first() == last);
        assert(all.drop_first() =~= Seq::<Seq<Blob>>::empty());
        assert(flat(all.drop_first()) == Seq::<Blob>::empty());
        assert(last + Seq::<Blob>::empty() =~= Seq::<Blob>::empty() + last);
    } else {
        assert(all.first() == batches.first());
        assert(all.drop_first() =~= batches.drop_first().push(last));
        lemma_flat_last(batches.drop_first(), last);
        assert(batches.first() + (flat(batches.drop_first()) + last) =~= batches.first() + flat(
            batches.drop_first(),
        ) + last);
    }
}

} // verus!
