//! The partition: an ordered sequence of segments with one active tail.
//!
//! Appends go to the active segment; when a record no longer fits there, the
//! active segment is sealed and a fresh one is started at the next offset.
//! Reads binary-search the segments by base offset and delegate to the owner.
//! The offsets assigned across the whole partition form the contiguous
//! sequence `0, 1, 2, ...`.

use crate::index::{expected_entries, index_enc};
use crate::log::{log_ok, InitError};
use crate::names::{parse_base_offset, spec_parse_stem};
use crate::record::{key_len, opt_bytes, Record, RecordModel};
use crate::segment::{Segment, SegmentError};
use crate::stream::{lemma_stream_recovery, parse_stream, spec_positions, stream_enc};
use vstd::prelude::*;

verus! {

/// The bytes of one segment's files, as the embedding application read them
/// from the log directory: the shared file name stem and the two files'
/// contents.
pub struct SegmentImage {
    pub name: String,
    pub log_bytes: Vec<u8>,
    pub index_bytes: Vec<u8>,
}

/// One image accounts for one segment: the stem names the segment's base,
/// and the segment holds exactly the records recovered from the log bytes.
pub open spec fn image_matches(img: SegmentImage, s: Segment) -> bool {
    &&& Some(s.base_offset) == spec_parse_stem(img.name@)
    &&& s.records() == parse_stream(img.log_bytes@, s.base_offset as int)
    &&& s.log.size == img.log_bytes@.len()
}

/// The base offset an image's file name stem denotes.
pub open spec fn image_base(img: SegmentImage) -> Option<u64> {
    spec_parse_stem(img.name@)
}

/// How many records the image's log bytes recover when scanned from `base`.
pub open spec fn image_count(img: SegmentImage, base: int) -> int {
    parse_stream(img.log_bytes@, base).len() as int
}

/// The images can be ordered to cover contiguous offsets starting at `next`:
/// exactly one image's stem names `next`, and the remaining images chain
/// from where that image's recovered records end.  This is what a directory
/// written by the partition itself always satisfies with `next == 0`.
pub open spec fn images_chain_from(imgs: Seq<SegmentImage>, next: int) -> bool
    decreases imgs.len(),
{
    if imgs.len() == 0 {
        true
    } else if !(0 <= next <= u64::MAX) {
        false
    } else if !(exists|t: int|
        0 <= t < imgs.len() && image_base(#[trigger] imgs[t]) == Some(next as u64)) {
        false
    } else if !(forall|t1: int, t2: int|
        (0 <= t1 < imgs.len() && 0 <= t2 < imgs.len() && image_base(#[trigger] imgs[t1]) == Some(
            next as u64,
        ) && image_base(#[trigger] imgs[t2]) == Some(next as u64)) ==> t1 == t2) {
        false
    } else {
        let t = choose|t: int|
            0 <= t < imgs.len() && image_base(#[trigger] imgs[t]) == Some(next as u64);
        images_chain_from(imgs.remove(t), next + image_count(imgs[t], next))
    }
}

/// `ord` pairs every image with one segment: it is a bijection from segment
/// positions to image positions under which each segment holds exactly what
/// its image's files held.
pub open spec fn images_arrangement(
    imgs: Seq<SegmentImage>,
    segs: Seq<Segment>,
    ord: Seq<int>,
) -> bool {
    &&& ord.len() == imgs.len()
    &&& ord.len() == segs.len()
    &&& forall|j: int| 0 <= j < ord.len() ==> 0 <= #[trigger] ord[j] < imgs.len()
    &&& forall|j1: int, j2: int| 0 <= j1 < j2 < ord.len() ==> ord[j1] != ord[j2]
    &&& forall|j: int| 0 <= j < ord.len() ==> image_matches(imgs[#[trigger] ord[j]], segs[j])
}

/// The records of a sequence of segments, one after another.
pub open spec fn cat_records(segs: Seq<Segment>) -> Seq<RecordModel>
    decreases segs.len(),
{
    if segs.len() == 0 {
        Seq::empty()
    } else {
        cat_records(segs.drop_last()) + segs.last().records()
    }
}

/// The segments cover contiguous offsets from zero: each one is well formed
/// and starts where its predecessor ends.
pub open spec fn chained(segs: Seq<Segment>) -> bool {
    &&& segs.len() >= 1
    &&& segs[0].base_offset == 0
    &&& forall|j: int| 0 <= j < segs.len() ==> (#[trigger] segs[j]).wf()
    &&& forall|j: int|
        #![trigger segs[j], segs[j - 1]]
        1 <= j < segs.len() ==> segs[j].base_offset as int == segs[j - 1].base_offset as int
            + segs[j - 1].count()
}

/// The chain condition at one link.
proof fn lemma_chain_step(segs: Seq<Segment>, j: int)
    requires
        chained(segs),
        1 <= j < segs.len(),
    ensures
        segs[j].base_offset as int == segs[j - 1].base_offset as int + segs[j - 1].count(),
{
}

/// A chained sequence's records end exactly at the last segment's next
/// offset.
pub proof fn lemma_cat_len(segs: Seq<Segment>)
    requires
        chained(segs),
    ensures
        cat_records(segs).len() == segs.last().base_offset as int + segs.last().count(),
    decreases segs.len(),
{
    if segs.len() > 1 {
        let d = segs.drop_last();
        assert(chained(d)) by {
            assert(forall|j: int| 0 <= j < d.len() ==> d[j] == #[trigger] segs[j]);
        }
        lemma_cat_len(d);
    } else {
        assert(segs.drop_last() =~= Seq::<Segment>::empty());
        assert(cat_records(Seq::<Segment>::empty()) == Seq::<RecordModel>::empty());
        assert(cat_records(segs) =~= segs.last().records());
    }
}

/// Replacing the last segment by one with the same records keeps the
/// partition's records.
proof fn lemma_cat_update_same(ss: Seq<Segment>, s2: Segment)
    requires
        ss.len() >= 1,
        s2.records() == ss.last().records(),
    ensures
        cat_records(ss.update(ss.len() - 1, s2)) == cat_records(ss),
{
    let up = ss.update(ss.len() - 1, s2);
    assert(up.drop_last() =~= ss.drop_last());
    assert(up.last() == s2);
}

/// Appending a segment appends its records.
proof fn lemma_cat_push(ss: Seq<Segment>, s: Segment)
    ensures
        cat_records(ss.push(s)) == cat_records(ss) + s.records(),
{
    assert(ss.push(s).drop_last() =~= ss);
    assert(ss.push(s).last() == s);
}

/// A segment holding no records adds nothing.
proof fn lemma_cat_push_empty(ss: Seq<Segment>, s: Segment)
    requires
        s.records() == Seq::<RecordModel>::empty(),
    ensures
        cat_records(ss.push(s)) == cat_records(ss),
{
    lemma_cat_push(ss, s);
    assert(cat_records(ss) + s.records() =~= cat_records(ss));
}

/// Replacing the last segment by one of equal base and count keeps the
/// chain.
proof fn lemma_chained_update_last(pre: Seq<Segment>, s2: Segment)
    requires
        chained(pre),
        s2.wf(),
        s2.base_offset == pre.last().base_offset,
        s2.count() == pre.last().count(),
    ensures
        chained(pre.update(pre.len() - 1, s2)),
{
    let up = pre.update(pre.len() - 1, s2);
    assert(forall|j: int| 0 <= j < pre.len() - 1 ==> #[trigger] up[j] == pre[j]);
}

/// A fresh segment starting at the chain's end extends the chain.
proof fn lemma_chained_push(ss: Seq<Segment>, fresh: Segment)
    requires
        chained(ss),
        fresh.wf(),
        fresh.base_offset as int == ss.last().base_offset as int + ss.last().count(),
    ensures
        chained(ss.push(fresh)),
{
    assert(forall|j: int| 0 <= j < ss.len() ==> #[trigger] ss.push(fresh)[j] == ss[j]);
}

/// Pushing one record onto the last segment pushes it onto the partition.
proof fn lemma_cat_update_push(ss: Seq<Segment>, s2: Segment, r: RecordModel)
    requires
        ss.len() >= 1,
        s2.records() == ss.last().records().push(r),
    ensures
        cat_records(ss.update(ss.len() - 1, s2)) == cat_records(ss).push(r),
{
    let up = ss.update(ss.len() - 1, s2);
    assert(up.drop_last() =~= ss.drop_last());
    assert(up.last() == s2);
    assert(cat_records(ss.drop_last()) + ss.last().records().push(r) =~= (cat_records(
        ss.drop_last(),
    ) + ss.last().records()).push(r));
}

/// Offset `o`, held by segment `j`, reads the same record through the
/// partition and through the segment.
pub proof fn lemma_cat_index(segs: Seq<Segment>, j: int, o: int)
    requires
        chained(segs),
        0 <= j < segs.len(),
        segs[j].base_offset <= o,
        o < segs[j].base_offset as int + segs[j].count(),
    ensures
        0 <= o < cat_records(segs).len(),
        cat_records(segs)[o] == segs[j].records()[o - segs[j].base_offset],
    decreases segs.len(),
{
    lemma_cat_len(segs);
    let d = segs.drop_last();
    if j == segs.len() - 1 {
        if segs.len() > 1 {
            assert(chained(d)) by {
                assert(forall|k: int| 0 <= k < d.len() ==> d[k] == #[trigger] segs[k]);
            }
            lemma_cat_len(d);
        } else {
            assert(d =~= Seq::<Segment>::empty());
            assert(cat_records(Seq::<Segment>::empty()) == Seq::<RecordModel>::empty());
        }
        assert(cat_records(d).len() == segs[j].base_offset);
    } else {
        assert(chained(d)) by {
            assert(forall|k: int| 0 <= k < d.len() ==> d[k] == #[trigger] segs[k]);
        }
        lemma_cat_index(d, j, o);
        lemma_cat_len(d);
    }
}

/// A single-partition, append-only commit log over a set of segment files.
pub struct Partition {
    pub segments: Vec<Segment>,
    /// Position of the active segment: always the last one.
    pub active_segment_index: usize,
    /// Preallocated bytes per log file.
    pub log_max_size: usize,
    /// One index entry per this many records.
    pub offset_interval: usize,
}

impl Partition {
    /// All records of the partition; the record at position `o` carries
    /// offset `o`.
    pub open spec fn records(&self) -> Seq<RecordModel> {
        cat_records(self.segments@)
    }

    pub open spec fn seg_count(&self) -> int {
        self.segments@.len() as int
    }

    pub open spec fn seg_base(&self, j: int) -> int {
        self.segments@[j].base_offset as int
    }

    pub open spec fn seg_len(&self, j: int) -> int {
        self.segments@[j].count()
    }

    pub open spec fn wf(&self) -> bool {
        &&& chained(self.segments@)
        &&& self.active_segment_index as int == self.seg_count() - 1
        &&& self.offset_interval >= 1
        &&& self.log_max_size <= u32::MAX
        &&& forall|j: int|
            0 <= j < self.seg_count() ==> {
                let s = #[trigger] self.segments@[j];
                &&& s.offset_interval == self.offset_interval
                &&& s.log.max_size == self.log_max_size
                &&& s.active == (j == self.seg_count() - 1)
            }
    }

    /// The number of segments.
    pub fn segment_count(&self) -> (r: usize)
        ensures
            r == self.seg_count(),
    {
        self.segments.len()
    }

    /// The base offset of segment `j`.
    pub fn base_offset_of(&self, j: usize) -> (r: u64)
        requires
            j < self.seg_count(),
        ensures
            r == self.seg_base(j as int),
    {
        self.segments[j].base_offset
    }

    /// The full log region image of segment `j`, for mirroring to its file.
    pub fn log_image_of(&self, j: usize) -> (r: &Vec<u8>)
        requires
            j < self.seg_count(),
        ensures
            r@ == self.segments@[j as int].log.data@,
    {
        &self.segments[j].log.data
    }

    /// The number of bytes written to segment `j`'s log.
    pub fn log_size_of(&self, j: usize) -> (r: usize)
        requires
            j < self.seg_count(),
        ensures
            r == self.segments@[j as int].log.size,
    {
        self.segments[j].log.size
    }

    /// The byte image of segment `j`'s index file.
    pub fn index_bytes_of(&self, j: usize) -> (r: Vec<u8>)
        requires
            self.wf(),
            j < self.seg_count(),
        ensures
            r@ == index_enc(self.segments@[j as int].entries()),
    {
        proof {
            self.segments@[j as int].lemma_count_bound();
            let s = self.segments@[j as int];
            let kk = s.entries().len() as int;
            if kk > 0 {
                vstd::arithmetic::mul::lemma_mul_inequality(1, s.offset_interval as int, kk);
                vstd::arithmetic::mul::lemma_mul_is_commutative(s.offset_interval as int, kk);
                vstd::arithmetic::mul::lemma_mul_basics(kk);
                vstd::arithmetic::mul::lemma_mul_inequality(kk, s.count(), 8);
            }
        }
        self.segments[j].index.to_bytes()
    }

    /// The offset the next append will be assigned; all offsets below it are
    /// readable.
    pub fn latest_offset(&self) -> (r: u64)
        requires
            self.wf(),
        ensures
            r == self.records().len(),
    {
        proof {
            lemma_cat_len(self.segments@);
        }
        self.segments[self.active_segment_index].latest_offset()
    }

    /// Opens a partition from the segment files found in the log directory,
    /// or a fresh one when there are none.
    ///
    /// Every file stem must parse as a base offset; each segment is rebuilt
    /// from its two files; and the recovered segments must cover contiguous
    /// offsets starting at zero.  The one with the greatest base becomes the
    /// active segment.
    #[verifier::rlimit(100)]
    #[verifier::loop_isolation(false)]
    pub fn init(images: Vec<SegmentImage>, log_max_size: usize, offset_interval: usize) -> (r:
        Result<Partition, InitError>)
        requires
            offset_interval >= 1,
            log_max_size <= u32::MAX,
        ensures
            match r {
                Ok(p) => {
                    &&& p.wf()
                    &&& p.log_max_size == log_max_size
                    &&& p.offset_interval == offset_interval
                    &&& images_chain_from(images@, 0)
                    &&& (images@.len() == 0 ==> p.seg_count() == 1 && p.records()
                        == Seq::<RecordModel>::empty())
                    &&& (images@.len() > 0 ==> exists|ord: Seq<int>|
                        #[trigger] images_arrangement(images@, p.segments@, ord))
                },
                Err(InitError::NameFormat) => exists|i: int|
                    0 <= i < images@.len() && spec_parse_stem(
                        (#[trigger] images@[i]).name@,
                    ) is None,
                Err(InitError::CorruptLog) => exists|i: int, b: u64|
                    0 <= i < images@.len() && Some(b) == spec_parse_stem(images@[i].name@)
                        && !(#[trigger] log_ok(images@[i].log_bytes@, b, log_max_size as int)),
                Err(InitError::CorruptIndex) => exists|i: int, b: u64|
                    0 <= i < images@.len() && Some(b) == spec_parse_stem(images@[i].name@)
                        && images@[i].index_bytes@ != index_enc(
                        expected_entries(
                            spec_positions(
                                #[trigger] parse_stream(images@[i].log_bytes@, b as int),
                            ),
                            offset_interval as int,
                        ),
                    ),
                Err(InitError::NonContiguous) => !images_chain_from(images@, 0),
            },
    {
        let ghost all_images = images@;
        if images.len() == 0 {
            let segment = Segment::new(0, offset_interval, log_max_size, true);
            let mut segments: Vec<Segment> = Vec::new();
            segments.push(segment);
            let p = Partition { segments, active_segment_index: 0, log_max_size, offset_interval };
            proof {
                assert(p.segments@.drop_last() =~= Seq::<Segment>::empty());
                assert(cat_records(Seq::<Segment>::empty()) == Seq::<RecordModel>::empty());
                assert(p.records() =~= Seq::<RecordModel>::empty());
            }
            return Ok(p);
        }
        let n = images.len();
        let mut bases: Vec<u64> = Vec::new();
        let mut i: usize = 0;
        while i < n
            invariant
                i <= n,
                n == images@.len(),
                images@ == all_images,
                bases@.len() == i,
                forall|t: int|
                    0 <= t < i ==> Some(#[trigger] bases@[t]) == spec_parse_stem(images@[t].name@),
            decreases n - i,
        {
            match parse_base_offset(images[i].name.as_str()) {
                Some(b) => {
                    bases.push(b);
                },
                None => {
                    return Err(InitError::NameFormat);
                },
            }
            i = i + 1;
        }
        // Load the segments in chain order: each round takes the one image
        // whose stem names the next uncovered offset.  `src` names, for each
        // image still to load, its position in the directory listing;
        // `order` does the same for the loaded segments.
        let mut images = images;
        let mut bases = bases;
        let ghost mut src: Seq<int> = Seq::new(all_images.len(), |t: int| t);
        let ghost mut order: Seq<int> = Seq::empty();
        let mut segments: Vec<Segment> = Vec::new();
        let mut loaded: usize = 0;
        let mut next_offset: u64 = 0;
        while loaded < n
            invariant
                loaded <= n,
                n >= 1,
                images@.len() == n - loaded,
                bases@.len() == n - loaded,
                src.len() == n - loaded,
                order.len() == loaded,
                segments@.len() == loaded,
                offset_interval >= 1,
                log_max_size <= u32::MAX,
                all_images.len() == n,
                loaded == 0 ==> next_offset == 0,
                loaded > 0 ==> chained(segments@) && next_offset as int == segments@.last(
                ).base_offset as int + segments@.last().count(),
                forall|j: int|
                    0 <= j < loaded ==> {
                        let s = #[trigger] segments@[j];
                        &&& s.wf()
                        &&& s.offset_interval == offset_interval
                        &&& s.log.max_size == log_max_size
                        &&& s.active == false
                    },
                forall|t: int|
                    0 <= t < images@.len() ==> Some(#[trigger] bases@[t]) == spec_parse_stem(
                        images@[t].name@,
                    ),
                forall|t: int|
                    0 <= t < images@.len() ==> 0 <= #[trigger] src[t] < n && all_images[src[t]]
                        == images@[t],
                forall|t1: int, t2: int| 0 <= t1 < t2 < src.len() ==> src[t1] != src[t2],
                forall|j: int|
                    0 <= j < loaded ==> 0 <= #[trigger] order[j] < n && image_matches(
                        all_images[order[j]],
                        segments@[j],
                    ),
                forall|j1: int, j2: int| 0 <= j1 < j2 < order.len() ==> order[j1] != order[j2],
                forall|j: int, t: int|
                    #![trigger order[j], src[t]]
                    0 <= j < order.len() && 0 <= t < src.len() ==> order[j] != src[t],
                images_chain_from(all_images, 0) == images_chain_from(
                    images@,
                    next_offset as int,
                ),
            decreases n - loaded,
        {
            let m = images.len();
            // Exactly one remaining image must start at the next offset.
            let mut matched: usize = 0;
            let mut pick: usize = 0;
            let ghost mut second: int = 0;
            let mut t: usize = 0;
            while t < m
                invariant
                    t <= m,
                    m == bases@.len(),
                    matched <= t,
                    matched == 0 ==> forall|u: int| 0 <= u < t ==> bases@[u] != next_offset,
                    matched >= 1 ==> pick < t && bases@[pick as int] == next_offset,
                    matched == 1 ==> forall|u: int|
                        0 <= u < t && u != pick ==> bases@[u] != next_offset,
                    matched >= 2 ==> (pick as int) < second < t && bases@[second] == next_offset,
                decreases m - t,
            {
                if bases[t] == next_offset {
                    if matched == 0 {
                        pick = t;
                    } else if matched == 1 {
                        proof {
                            second = t as int;
                        }
                    }
                    matched = matched + 1;
                }
                t = t + 1;
            }
            if matched != 1 {
                proof {
                    let imgs = images@;
                    if matched == 0 {
                        assert forall|u: int| 0 <= u < imgs.len() implies image_base(
                            #[trigger] imgs[u],
                        ) != Some(next_offset) by {
                            assert(bases@[u] != next_offset);
                        }
                        assert(!images_chain_from(imgs, next_offset as int));
                    } else {
                        assert(image_base(imgs[pick as int]) == Some(next_offset));
                        assert(image_base(imgs[second]) == Some(next_offset));
                        assert(!images_chain_from(imgs, next_offset as int));
                    }
                }
                return Err(InitError::NonContiguous);
            }
            let base = next_offset;
            let ghost pre_images = images@;
            let ghost pre_bases = bases@;
            let ghost pre_src = src;
            let ghost img = pre_images[pick as int];
            let ghost witness: int = src[pick as int];
            let image = images.remove(pick);
            bases.remove(pick);
            proof {
                src = src.remove(pick as int);
                assert(image == img);
                assert(all_images[witness] == img);
                pre_images.remove_ensures(pick as int);
                pre_bases.remove_ensures(pick as int);
                pre_src.remove_ensures(pick as int);
                assert forall|t2: int| 0 <= t2 < images@.len() implies Some(#[trigger] bases@[t2])
                    == spec_parse_stem(images@[t2].name@) && 0 <= src[t2] < n
                    && all_images[src[t2]] == images@[t2] by {
                    if t2 < pick {
                        assert(images@[t2] == pre_images[t2]);
                        assert(bases@[t2] == pre_bases[t2]);
                        assert(src[t2] == pre_src[t2]);
                    } else {
                        assert(images@[t2] == pre_images[t2 + 1]);
                        assert(bases@[t2] == pre_bases[t2 + 1]);
                        assert(src[t2] == pre_src[t2 + 1]);
                    }
                }
                assert forall|t1: int, t2: int| 0 <= t1 < t2 < src.len() implies src[t1]
                    != src[t2] by {
                    assert(src[t1] == if t1 < pick {
                        pre_src[t1]
                    } else {
                        pre_src[t1 + 1]
                    });
                    assert(src[t2] == if t2 < pick {
                        pre_src[t2]
                    } else {
                        pre_src[t2 + 1]
                    });
                }
                assert forall|j: int, t2: int|
                    #![trigger order[j], src[t2]]
                    0 <= j < order.len() && 0 <= t2 < src.len() implies order[j] != src[t2] by {
                    assert(src[t2] == if t2 < pick {
                        pre_src[t2]
                    } else {
                        pre_src[t2 + 1]
                    });
                }
                // The unique match is the one the chain condition chooses.
                let tc = choose|t2: int|
                    0 <= t2 < pre_images.len() && image_base(#[trigger] pre_images[t2]) == Some(
                        base,
                    );
                assert(image_base(pre_images[pick as int]) == Some(base));
                assert forall|u1: int, u2: int|
                    (0 <= u1 < pre_images.len() && 0 <= u2 < pre_images.len() && image_base(
                        #[trigger] pre_images[u1],
                    ) == Some(base) && image_base(#[trigger] pre_images[u2]) == Some(
                        base,
                    )) implies u1 == u2 by {
                    if u1 != pick {
                        assert(pre_bases[u1] != next_offset);
                        assert(Some(pre_bases[u1]) == spec_parse_stem(pre_images[u1].name@));
                    }
                    if u2 != pick {
                        assert(pre_bases[u2] != next_offset);
                        assert(Some(pre_bases[u2]) == spec_parse_stem(pre_images[u2].name@));
                    }
                }
                assert(tc == pick);
                assert(images_chain_from(pre_images, base as int) == images_chain_from(
                    images@,
                    base as int + image_count(img, base as int),
                ));
            }
            let segment = match Segment::load_from_disk(
                base,
                offset_interval,
                log_max_size,
                false,
                image.log_bytes,
                &image.index_bytes,
            ) {
                Ok(s) => s,
                Err(e) => {
                    proof {
                        assert(Some(base) == spec_parse_stem(all_images[witness].name@));
                    }
                    return Err(e);
                },
            };
            proof {
                segment.lemma_count_bound();
            }
            let seg_latest = segment.latest_offset();
            let ghost pre_segments = segments@;
            segments.push(segment);
            next_offset = seg_latest;
            loaded = loaded + 1;
            proof {
                order = order.push(witness);
                assert(segments@.drop_last() =~= pre_segments);
                assert(segments@.last() == segment);
                assert(chained(segments@)) by {
                    assert(forall|j: int|
                        0 <= j < pre_segments.len() ==> #[trigger] segments@[j]
                            == pre_segments[j]);
                }
                assert(image_matches(all_images[witness], segment)) by {
                    assert(Some(base) == spec_parse_stem(img.name@));
                }
                assert(segment.count() == image_count(img, base as int));
                assert forall|j: int|
                    0 <= j < loaded implies 0 <= #[trigger] order[j] < n && image_matches(
                    all_images[order[j]],
                    segments@[j],
                ) by {
                    if j < loaded - 1 {
                        assert(segments@[j] == pre_segments[j]);
                    }
                }
            }
        }
        proof {
            assert(images_chain_from(images@, next_offset as int));
        }
        // The loaded segment with the greatest base becomes the active one.
        let ghost sealed_segments = segments@;
        let mut tail = match segments.pop() {
            Some(s) => s,
            None => {
                proof {
                    assert(false);
                }
                return Err(InitError::NonContiguous);
            },
        };
        tail.active = true;
        segments.push(tail);
        let last = segments.len() - 1;
        let p = Partition { segments, active_segment_index: last, log_max_size, offset_interval };
        proof {
            assert forall|j: int| 0 <= j < p.segments@.len() - 1 implies #[trigger] p.segments@[j]
                == sealed_segments[j] by {
                assert(p.segments@[j] == sealed_segments.drop_last().push(tail)[j]);
            }
            assert(p.segments@.last() == tail);
            assert(tail.wf());
            assert(chained(p.segments@));
            assert forall|j: int|
                0 <= j < order.len() implies 0 <= #[trigger] order[j] < n && image_matches(
                all_images[order[j]],
                p.segments@[j],
            ) by {
                if j < n - 1 {
                    assert(image_matches(all_images[order[j]], sealed_segments[j]));
                } else {
                    assert(image_matches(all_images[order[j]], sealed_segments[j]));
                    assert(image_matches(all_images[order[j]], tail));
                }
            }
            assert(images_arrangement(all_images, p.segments@, order));
        }
        Ok(p)
    }

    /// Seals the active segment and opens a fresh one at the next offset,
    /// which becomes the active segment.
    #[verifier::rlimit(100)]
    #[verifier::spinoff_prover]
    #[verifier::loop_isolation(false)]
    fn new_active_segment(&mut self)
        requires
            old(self).wf(),
        ensures
            final(self).wf(),
            final(self).log_max_size == old(self).log_max_size,
            final(self).offset_interval == old(self).offset_interval,
            final(self).records() == old(self).records(),
            final(self).seg_count() == old(self).seg_count() + 1,
            forall|j: int|
                0 <= j < old(self).seg_count() ==> final(self).seg_base(j) == old(self).seg_base(
                    j,
                ),
            final(self).seg_base(final(self).seg_count() - 1) == old(self).records().len(),
            final(self).segments@.last().log.size == 0,
            final(self).segments@.last().count() == 0,
    {
        proof {
            lemma_cat_len(self.segments@);
        }
        let a = self.active_segment_index;
        let latest = self.segments[a].latest_offset();
        let fresh = Segment::new(latest, self.offset_interval, self.log_max_size, true);
        let ghost pre = self.segments@;
        let mut tail = match self.segments.pop() {
            Some(s) => s,
            None => {
                proof {
                    assert(false);
                }
                return ;
            },
        };
        tail.seal();
        self.segments.push(tail);
        let ghost sealed = self.segments@;
        self.segments.push(fresh);
        self.active_segment_index = self.segments.len() - 1;
        proof {
            assert(sealed =~= pre.update(pre.len() - 1, sealed.last()));
            lemma_cat_update_same(pre, sealed.last());
            lemma_chained_update_last(pre, sealed.last());
            lemma_cat_push_empty(sealed, fresh);
            lemma_chained_push(sealed, fresh);
            lemma_cat_len(self.segments@);
        }
    }

    /// Appends a record at the partition's tail, assigning it the next
    /// offset.  When the record no longer fits the active segment, that
    /// segment is sealed and a fresh segment starting at the next offset
    /// takes the record.
    #[verifier::rlimit(100)]
    #[verifier::loop_isolation(false)]
    pub fn append_record(&mut self, key: Option<Vec<u8>>, value: &[u8])
        requires
            old(self).wf(),
            (key matches Some(k) ==> k@.len() >= 1),
            32 + key_len(opt_bytes(key)) + value@.len() <= old(self).log_max_size,
            old(self).records().len() < u64::MAX,
        ensures
            final(self).wf(),
            final(self).log_max_size == old(self).log_max_size,
            final(self).offset_interval == old(self).offset_interval,
            ({
                let rs = final(self).records();
                &&& rs.len() == old(self).records().len() + 1
                &&& rs == old(self).records().push(rs.last())
                &&& rs.last().offset == old(self).records().len()
                &&& rs.last().key == opt_bytes(key)
                &&& rs.last().value == value@
            }),
            ({
                let bs = 32 + key_len(opt_bytes(key)) + value@.len();
                let act = old(self).segments@.last();
                if act.log.max_size - act.log.size >= bs {
                    &&& final(self).seg_count() == old(self).seg_count()
                    &&& forall|j: int|
                        0 <= j < final(self).seg_count() ==> final(self).seg_base(j) == old(
                            self,
                        ).seg_base(j)
                } else {
                    &&& final(self).seg_count() == old(self).seg_count() + 1
                    &&& final(self).seg_base(final(self).seg_count() - 1) == old(
                        self,
                    ).records().len()
                }
            }),
    {
        proof {
            lemma_cat_len(self.segments@);
        }
        let klen = match &key {
            Some(k) => k.len(),
            None => 0,
        };
        let needed = 32 + klen + value.len();
        let fits = self.segments[self.active_segment_index].log.can_fit(needed);
        if !fits {
            self.new_active_segment();
        }
        let a = self.active_segment_index;
        let ghost mid_segs = self.segments@;
        proof {
            lemma_cat_len(mid_segs);
        }
        let result = self.segments[a].append_record(key, value);
        proof {
            let seg2 = self.segments@[a as int];
            match result {
                Ok(()) => {
                    let rec = seg2.records().last();
                    lemma_cat_update_push(mid_segs, seg2, rec);
                    assert(self.segments@ =~= mid_segs.update(mid_segs.len() - 1, seg2));
                    assert(chained(self.segments@)) by {
                        assert(forall|j: int|
                            0 <= j < mid_segs.len() - 1 ==> #[trigger] self.segments@[j]
                                == mid_segs[j]);
                    }
                },
                Err(_) => {
                    assert(false);
                },
            }
        }
    }

    /// Reads the record at `offset`: the segment whose offset range covers
    /// the target answers, found by binary search over the base offsets.
    #[verifier::loop_isolation(false)]
    pub fn find_record(&self, offset: u64) -> (r: Result<Record, SegmentError>)
        requires
            self.wf(),
        ensures
            match r {
                Ok(rec) => offset < self.records().len() && rec@ == self.records()[offset as int],
                Err(SegmentError::OffsetOutOfRange) => offset >= self.records().len(),
                Err(_) => false,
            },
    {
        proof {
            lemma_cat_len(self.segments@);
        }
        let n = self.segments.len();
        let active = n - 1;
        if offset >= self.segments[active].latest_offset() {
            return Err(SegmentError::OffsetOutOfRange);
        }
        if offset == self.segments[active].base_offset {
            // Right after a roll the active segment starts at the target.
            proof {
                lemma_cat_index(self.segments@, active as int, offset as int);
            }
            return match self.segments[active].read_at(offset) {
                Ok(rec) => Ok(rec),
                Err(_) => {
                    proof {
                        assert(false);
                    }
                    Err(SegmentError::OffsetOutOfRange)
                },
            };
        }
        let mut lo: usize = 0;
        let mut hi: usize = n;
        while lo + 1 < hi
            invariant
                lo < hi <= n,
                self.segments@[lo as int].base_offset <= offset,
                hi < n ==> offset < self.segments@[hi as int].base_offset,
            decreases hi - lo,
        {
            let mid = lo + (hi - lo) / 2;
            if self.segments[mid].base_offset <= offset {
                lo = mid;
            } else {
                hi = mid;
            }
        }
        proof {
            if lo + 1 < n {
                lemma_chain_step(self.segments@, lo + 1);
            }
            lemma_cat_index(self.segments@, lo as int, offset as int);
        }
        match self.segments[lo].read_at(offset) {
            Ok(rec) => Ok(rec),
            Err(_) => {
                proof {
                    assert(false);
                }
                Err(SegmentError::OffsetOutOfRange)
            },
        }
    }
}

/// Durability of a flushed segment: its log file holds the stream of its
/// records followed by zero padding, and the recovery scan of
/// `Log::load_from_disk` reads exactly those records back.  The one segment
/// this cannot hold of is an empty one at base offset zero, whose padding
/// alone already decodes as a record numbered zero.
pub proof fn lemma_flushed_segment_recovers(p: &Partition, j: int, pad: Seq<u8>)
    requires
        p.wf(),
        0 <= j < p.seg_count(),
        !(p.seg_len(j) == 0 && p.seg_base(j) == 0),
        forall|x: int| 0 <= x < pad.len() ==> pad[x] == 0u8,
    ensures
        parse_stream(
            stream_enc(p.segments@[j].records()) + pad,
            p.seg_base(j),
        ) == p.segments@[j].records(),
{
    lemma_stream_recovery(p.segments@[j].records(), p.seg_base(j), pad);
}

/// Whether segment `j`'s offset range covers offset `o`.
pub open spec fn seg_covers(p: &Partition, j: int, o: int) -> bool {
    p.seg_base(j) <= o < p.seg_base(j) + p.seg_len(j)
}

/// Segment ranges follow the base order: a segment ends at or before any
/// later segment's base.
proof fn lemma_base_order(segs: Seq<Segment>, j: int, k: int)
    requires
        chained(segs),
        0 <= j < k < segs.len(),
    ensures
        segs[j].base_offset as int + segs[j].count() <= segs[k].base_offset as int,
    decreases k - j,
{
    lemma_chain_step(segs, k);
    if k > j + 1 {
        lemma_base_order(segs, j, k - 1);
    }
}

/// Offset assignment is monotone: the record at position `k` of the
/// partition carries offset `k`, so the k-th record ever appended to a
/// fresh partition was assigned offset `k`.
pub proof fn lemma_offset_monotonicity(p: &Partition, k: int)
    requires
        p.wf(),
        0 <= k < p.records().len(),
    ensures
        p.records()[k].offset == k,
{
    lemma_cat_offsets(p.segments@, k);
}

proof fn lemma_cat_offsets(segs: Seq<Segment>, o: int)
    requires
        chained(segs),
        0 <= o < cat_records(segs).len(),
    ensures
        cat_records(segs)[o].offset == o,
    decreases segs.len(),
{
    lemma_cat_len(segs);
    let d = segs.drop_last();
    let last = segs.last();
    if segs.len() == 1 {
        assert(d =~= Seq::<Segment>::empty());
        assert(cat_records(Seq::<Segment>::empty()) == Seq::<RecordModel>::empty());
        assert(cat_records(segs)[o] == last.records()[o]);
    } else {
        assert(chained(d)) by {
            assert(forall|k: int| 0 <= k < d.len() ==> d[k] == #[trigger] segs[k]);
        }
        lemma_cat_len(d);
        if o < cat_records(d).len() {
            lemma_cat_offsets(d, o);
        } else {
            assert(cat_records(segs)[o] == last.records()[o - last.base_offset]);
        }
    }
}

/// Coverage: every offset below the partition's end lies in the range of
/// exactly one segment, and the partition reads that segment's record there.
pub proof fn lemma_segment_coverage(p: &Partition, o: int)
    requires
        p.wf(),
        0 <= o < p.records().len(),
    ensures
        exists|j: int| 0 <= j < p.seg_count() && #[trigger] seg_covers(p, j, o),
        forall|j1: int, j2: int|
            0 <= j1 < p.seg_count() && 0 <= j2 < p.seg_count() && #[trigger] seg_covers(p, j1, o)
                && #[trigger] seg_covers(p, j2, o) ==> j1 == j2,
        forall|j: int|
            0 <= j < p.seg_count() && #[trigger] seg_covers(p, j, o) ==> p.records()[o]
                == p.segments@[j].records()[o - p.seg_base(j)],
{
    lemma_cover_exists(p.segments@, o);
    let jw = choose|j: int|
        0 <= j < p.segments@.len() && p.segments@[j].base_offset <= o && o < p.segments@[j].base_offset as int + p.segments@[j].count();
    assert(seg_covers(p, jw, o));
    assert forall|j1: int, j2: int|
        0 <= j1 < p.seg_count() && 0 <= j2 < p.seg_count() && #[trigger] seg_covers(p, j1, o)
            && #[trigger] seg_covers(p, j2, o) implies j1 == j2 by {
        if j1 < j2 {
            lemma_base_order(p.segments@, j1, j2);
        }
        if j2 < j1 {
            lemma_base_order(p.segments@, j2, j1);
        }
    }
    assert forall|j: int|
        0 <= j < p.seg_count() && #[trigger] seg_covers(p, j, o) implies p.records()[o]
        == p.segments@[j].records()[o - p.seg_base(j)] by {
        lemma_cat_index(p.segments@, j, o);
    }
}

proof fn lemma_cover_exists(segs: Seq<Segment>, o: int)
    requires
        chained(segs),
        0 <= o < cat_records(segs).len(),
    ensures
        exists|j: int|
            0 <= j < segs.len() && (#[trigger] segs[j]).base_offset <= o && o < segs[j].base_offset as int + segs[j].count(),
    decreases segs.len(),
{
    lemma_cat_len(segs);
    let d = segs.drop_last();
    let last = segs.last();
    if segs.len() == 1 {
        assert(segs[0].base_offset == 0);
        assert(segs[0].base_offset <= o && o < segs[0].base_offset as int + segs[0].count());
    } else {
        assert(chained(d)) by {
            assert(forall|k: int| 0 <= k < d.len() ==> d[k] == #[trigger] segs[k]);
        }
        lemma_cat_len(d);
        if o < cat_records(d).len() {
            lemma_cover_exists(d, o);
            let j0 = choose|j: int|
                0 <= j < d.len() && (#[trigger] d[j]).base_offset <= o && o < d[j].base_offset as int + d[j].count();
            assert(segs[j0].base_offset <= o && o < segs[j0].base_offset as int
                + segs[j0].count());
        } else {
            let j0 = segs.len() - 1;
            assert(segs[j0].base_offset <= o && o < segs[j0].base_offset as int
                + segs[j0].count());
        }
    }
}

} // verus!

