//! Per-atlas pipeline: descriptor elements plus the decoded source image in;
//! parsed and deduplicated records, a packing feasibility report, and one
//! output image per surviving sprite out. Reading the descriptor, decoding
//! the image and writing the files happen outside the library.
use vstd::prelude::*;

use crate::compose::ImageBuf;
use crate::dedup::dedup_frames;
use crate::dedup::recs_view;
use crate::dedup::same_frame_fn;
use crate::dedup::spec_keep_last;
use crate::extract::BoundsError;
use crate::extract::extract_sprite;
use crate::extract::is_extract_of;
use crate::extract::spec_extract_err;
use crate::naming::output_filename;
use crate::naming::spec_output_filename;
use crate::packer::PackBox;
use crate::packer::PackingFailure;
use crate::packer::PlacementResult;
use crate::packer::count_box;
use crate::packer::count_val;
use crate::packer::feasibility_bin;
use crate::packer::feasibility_check;
use crate::packer::no_fit_anywhere;
use crate::packer::placements_disjoint;
use crate::packer::placements_valid;
use crate::packer::sat_add;
use crate::packer::spec_placed_area;
use crate::parse::ParseError;
use crate::parse::RawElement;
use crate::parse::RawElementV;
use crate::parse::elems_view;
use crate::parse::parse_records;
use crate::parse::spec_parse_records;
use crate::records::SpriteRecord;
use crate::records::SpriteRecordV;
use crate::xml::parse_xml_nodes;
use crate::xml::xml_nodes_of;

verus! {

/// One sprite ready to be written: its output file name and its pixels.
pub struct SpriteOutput {
    pub filename: String,
    pub image: ImageBuf,
}

/// One sprite that could not be extracted; the others continue.
pub struct SpriteFailure {
    pub name: String,
    pub error: BoundsError,
}

/// Why a whole atlas was abandoned.
#[derive(Debug)]
pub enum AtlasError {
    /// The descriptor is not well-formed XML.
    Xml,
    /// A sprite element of the descriptor is malformed.
    Parse(ParseError),
}

/// Everything one atlas yields short of the file writes.
pub struct AtlasPlan {
    /// The deduplicated sprite records, in surviving order.
    pub records: Vec<SpriteRecord>,
    /// The feasibility-check bin: the bounding box of the sprite positions.
    pub bin_w: u64,
    pub bin_h: u64,
    /// One box per record with positive dimensions, in record order.
    pub boxes: Vec<PackBox>,
    /// Which record each box came from.
    pub box_records: Vec<usize>,
    /// The feasibility check's outcome; a failure aborts no extraction.
    pub packing: Result<PlacementResult, PackingFailure>,
    /// The extracted sprites, in record order.
    pub outputs: Vec<SpriteOutput>,
    /// The sprites whose geometry was rejected, in record order.
    pub failures: Vec<SpriteFailure>,
}

/// The records a well-formed descriptor parses to.
pub open spec fn spec_parsed(ev: Seq<RawElementV>) -> Seq<SpriteRecordV> {
    match spec_parse_records(ev) {
        Ok(rs) => rs,
        Err(_) => vstd::pervasive::arbitrary(),
    }
}

/// The deduplicated records: the last record under each frame wins.
pub open spec fn spec_deduped(ev: Seq<RawElementV>) -> Seq<SpriteRecordV> {
    spec_keep_last(spec_parsed(ev), same_frame_fn())
}

/// The feasibility bin's width: the largest `x + width` over the records,
/// at least zero.
pub open spec fn spec_bound_w(recs: Seq<SpriteRecordV>) -> int
    decreases recs.len(),
{
    if recs.len() == 0 {
        0
    } else {
        let prev = spec_bound_w(recs.drop_last());
        let m = recs.last().x + recs.last().width;
        if m > prev {
            m
        } else {
            prev
        }
    }
}

/// The feasibility bin's height: the largest `y + height`, at least zero.
pub open spec fn spec_bound_h(recs: Seq<SpriteRecordV>) -> int
    decreases recs.len(),
{
    if recs.len() == 0 {
        0
    } else {
        let prev = spec_bound_h(recs.drop_last());
        let m = recs.last().y + recs.last().height;
        if m > prev {
            m
        } else {
            prev
        }
    }
}

/// One packing box per record with positive dimensions, in record order.
pub open spec fn spec_boxes(recs: Seq<SpriteRecordV>) -> Seq<PackBox>
    decreases recs.len(),
{
    if recs.len() == 0 {
        Seq::empty()
    } else {
        spec_boxes(recs.drop_last()) + if recs.last().width >= 1 && recs.last().height >= 1 {
            seq![PackBox { w: recs.last().width as u64, h: recs.last().height as u64 }]
        } else {
            Seq::empty()
        }
    }
}

/// The record index each packing box came from.
pub open spec fn spec_box_records(recs: Seq<SpriteRecordV>) -> Seq<int>
    decreases recs.len(),
{
    if recs.len() == 0 {
        Seq::empty()
    } else {
        spec_box_records(recs.drop_last()) + if recs.last().width >= 1 && recs.last().height
            >= 1 {
            seq![recs.len() - 1]
        } else {
            Seq::empty()
        }
    }
}

/// The indices of the records whose extraction succeeds, in order.
pub open spec fn spec_ok_indices(recs: Seq<SpriteRecordV>, w: int, h: int, max: int) -> Seq<int>
    decreases recs.len(),
{
    if recs.len() == 0 {
        Seq::empty()
    } else {
        spec_ok_indices(recs.drop_last(), w, h, max) + if spec_extract_err(
            recs.last(),
            w,
            h,
            max,
        ) is None {
            seq![recs.len() - 1]
        } else {
            Seq::empty()
        }
    }
}

/// The indices of the records whose extraction is rejected, in order.
pub open spec fn spec_err_indices(recs: Seq<SpriteRecordV>, w: int, h: int, max: int) -> Seq<int>
    decreases recs.len(),
{
    if recs.len() == 0 {
        Seq::empty()
    } else {
        spec_err_indices(recs.drop_last(), w, h, max) + if spec_extract_err(
            recs.last(),
            w,
            h,
            max,
        ) is Some {
            seq![recs.len() - 1]
        } else {
            Seq::empty()
        }
    }
}

/// What a successful atlas plan promises: the records are the parsed,
/// deduplicated ones; the bin and boxes follow them; the feasibility check
/// accounts for every box exactly once, places without overlap inside the
/// bin, leaves a box unplaced only when no region of its size is still empty,
/// and sums the packed area over the boxes actually placed; and every record
/// yields either an output image of exactly its geometry or the `BoundsError`
/// its geometry earns, in order.
pub open spec fn plan_ok(plan: AtlasPlan, ev: Seq<RawElementV>, src: ImageBuf) -> bool {
    let d = spec_deduped(ev);
    let w = src.width as int;
    let h = src.height as int;
    let max = usize::MAX as int;
    let oks = spec_ok_indices(d, w, h, max);
    let errs = spec_err_indices(d, w, h, max);
    &&& spec_parse_records(ev) is Ok
    &&& recs_view(plan.records@) == d
    &&& plan.bin_w as int == spec_bound_w(d)
    &&& plan.bin_h as int == spec_bound_h(d)
    &&& plan.boxes@ == spec_boxes(d)
    &&& plan.box_records@.map_values(|u: usize| u as int) == spec_box_records(d)
    &&& match plan.packing {
        Ok(res) => {
            &&& res.unplaced@.len() == 0
            &&& placements_valid(res.placed@, plan.boxes@, seq![
                feasibility_bin(plan.bin_w, plan.bin_h),
            ])
            &&& placements_disjoint(res.placed@, plan.boxes@)
            &&& forall|i: int| 0 <= i < plan.boxes@.len() ==> count_box(res.placed@, i) == 1
            &&& res.placed_area == spec_placed_area(res.placed@, plan.boxes@)
            &&& res.bin_area == sat_add(0, plan.bin_w * plan.bin_h)
        },
        Err(pf) => {
            &&& pf.unplaced@.len() > 0
            &&& placements_valid(pf.placed@, plan.boxes@, seq![
                feasibility_bin(plan.bin_w, plan.bin_h),
            ])
            &&& placements_disjoint(pf.placed@, plan.boxes@)
            &&& forall|i: int|
                0 <= i < plan.boxes@.len() ==> count_box(pf.placed@, i) + count_val(
                    pf.unplaced@,
                    i,
                ) == 1
            &&& forall|ui: int|
                0 <= ui < pf.unplaced@.len() ==> (#[trigger] pf.unplaced@[ui]) < plan.boxes@.len()
                    && no_fit_anywhere(
                    plan.boxes@,
                    seq![feasibility_bin(plan.bin_w, plan.bin_h)],
                    pf.placed@,
                    pf.unplaced@[ui] as int,
                )
            &&& forall|i: int|
                0 <= i < plan.boxes@.len() && ((#[trigger] plan.boxes@[i]).w > plan.bin_w
                    || plan.boxes@[i].h > plan.bin_h) ==> count_val(pf.unplaced@, i) == 1
            &&& pf.placed_area == spec_placed_area(pf.placed@, plan.boxes@)
            &&& pf.bin_area == sat_add(0, plan.bin_w * plan.bin_h)
        },
    }
    &&& plan.outputs@.len() == oks.len()
    &&& forall|oi: int|
        0 <= oi < oks.len() ==> {
            &&& (#[trigger] plan.outputs@[oi]).filename@ == spec_output_filename(
                d[oks[oi]].name,
            )
            &&& is_extract_of(plan.outputs@[oi].image, src, d[oks[oi]])
        }
    &&& plan.failures@.len() == errs.len()
    &&& forall|fi: int|
        0 <= fi < errs.len() ==> {
            &&& (#[trigger] plan.failures@[fi]).name@ == d[errs[fi]].name
            &&& Some(plan.failures@[fi].error) == spec_extract_err(d[errs[fi]], w, h, max)
        }
}

/// Analyzes one atlas: parses the descriptor elements, deduplicates the
/// records, checks that the deduplicated frames can be repacked into their
/// own bounding box, and extracts every sprite's output image. A `ParseError`
/// aborts the whole atlas; a sprite's `BoundsError` aborts only that sprite.
pub fn process_atlas(elems: &Vec<RawElement>, src: &ImageBuf) -> (r: Result<AtlasPlan, ParseError>)
    requires
        src.wf(),
    ensures
        match r {
            Ok(plan) => plan_ok(plan, elems_view(elems@), *src),
            Err(pe) => spec_parse_records(elems_view(elems@)) == Err::<
                Seq<SpriteRecordV>,
                crate::parse::ParseErrorV,
            >(pe@),
        },
{
    let parsed = match parse_records(elems) {
        Err(pe) => {
            return Err(pe);
        },
        Ok(rs) => rs,
    };
    let records = dedup_frames(&parsed);
    let ghost d = recs_view(records@);
    let n = records.len();
    // The feasibility bin: the bounding box of the sprite positions.
    let mut bw: i64 = 0;
    let mut bh: i64 = 0;
    let mut i: usize = 0;
    while i < n
        invariant
            i <= n,
            n == records@.len(),
            d == recs_view(records@),
            bw == spec_bound_w(d.take(i as int)),
            bh == spec_bound_h(d.take(i as int)),
            0 <= bw <= 0x1_0000_0000,
            0 <= bh <= 0x1_0000_0000,
        decreases n - i,
    {
        proof {
            assert(d.take(i as int + 1).drop_last() =~= d.take(i as int));
            assert(d.take(i as int + 1).last() == d[i as int]);
            assert(d[i as int] == records@[i as int]@);
        }
        let mw = (records[i].x as i64) + (records[i].width as i64);
        let mh = (records[i].y as i64) + (records[i].height as i64);
        if mw > bw {
            bw = mw;
        }
        if mh > bh {
            bh = mh;
        }
        i = i + 1;
    }
    let bin_w = bw as u64;
    let bin_h = bh as u64;
    // One packing box per record with positive dimensions.
    let mut boxes: Vec<PackBox> = Vec::new();
    let mut box_records: Vec<usize> = Vec::new();
    let mut j: usize = 0;
    while j < n
        invariant
            j <= n,
            n == records@.len(),
            d == recs_view(records@),
            boxes@ == spec_boxes(d.take(j as int)),
            box_records@.map_values(|u: usize| u as int) == spec_box_records(d.take(j as int)),
            forall|bi: int| 0 <= bi < boxes@.len() ==> (#[trigger] boxes@[bi]).nonempty(),
        decreases n - j,
    {
        proof {
            assert(d.take(j as int + 1).drop_last() =~= d.take(j as int));
            assert(d.take(j as int + 1).last() == d[j as int]);
            assert(d[j as int] == records@[j as int]@);
        }
        let ghost boxes_before = boxes@;
        let ghost brs_before = box_records@;
        if records[j].width >= 1 && records[j].height >= 1 {
            boxes.push(PackBox { w: records[j].width as u64, h: records[j].height as u64 });
            box_records.push(j);
            proof {
                assert(boxes@ =~= spec_boxes(d.take(j as int + 1)));
                assert(box_records@.map_values(|u: usize| u as int) =~= spec_box_records(
                    d.take(j as int + 1),
                ));
            }
        } else {
            proof {
                assert(boxes@ =~= spec_boxes(d.take(j as int + 1)));
                assert(box_records@.map_values(|u: usize| u as int) =~= spec_box_records(
                    d.take(j as int + 1),
                ));
            }
        }
        j = j + 1;
    }
    proof {
        assert(d.take(n as int) =~= d);
    }
    let packing = feasibility_check(&boxes, bin_w, bin_h);
    // Extraction: every sprite independently; a bad one aborts only itself.
    let ghost w = src.width as int;
    let ghost h = src.height as int;
    let ghost max = usize::MAX as int;
    let mut outputs: Vec<SpriteOutput> = Vec::new();
    let mut failures: Vec<SpriteFailure> = Vec::new();
    let mut e: usize = 0;
    while e < n
        invariant
            e <= n,
            n == records@.len(),
            d == recs_view(records@),
            src.wf(),
            w == src.width as int,
            h == src.height as int,
            max == usize::MAX as int,
            outputs@.len() == spec_ok_indices(d.take(e as int), w, h, max).len(),
            failures@.len() == spec_err_indices(d.take(e as int), w, h, max).len(),
            forall|oi: int|
                0 <= oi < outputs@.len() ==> {
                    &&& (#[trigger] outputs@[oi]).filename@ == spec_output_filename(
                        d[spec_ok_indices(d.take(e as int), w, h, max)[oi]].name,
                    )
                    &&& is_extract_of(
                        outputs@[oi].image,
                        *src,
                        d[spec_ok_indices(d.take(e as int), w, h, max)[oi]],
                    )
                },
            forall|fi: int|
                0 <= fi < failures@.len() ==> {
                    &&& (#[trigger] failures@[fi]).name@ == d[spec_err_indices(
                        d.take(e as int),
                        w,
                        h,
                        max,
                    )[fi]].name
                    &&& Some(failures@[fi].error) == spec_extract_err(
                        d[spec_err_indices(d.take(e as int), w, h, max)[fi]],
                        w,
                        h,
                        max,
                    )
                },
        decreases n - e,
    {
        proof {
            assert(d.take(e as int + 1).drop_last() =~= d.take(e as int));
            assert(d.take(e as int + 1).last() == d[e as int]);
            assert(d[e as int] == records@[e as int]@);
        }
        let ghost oks_before = spec_ok_indices(d.take(e as int), w, h, max);
        let ghost errs_before = spec_err_indices(d.take(e as int), w, h, max);
        let rec = &records[e];
        match extract_sprite(src, rec) {
            Ok(img) => {
                let filename = output_filename(&rec.name);
                outputs.push(SpriteOutput { filename, image: img });
                proof {
                    assert(spec_ok_indices(d.take(e as int + 1), w, h, max) =~= oks_before
                        + seq![e as int]);
                    assert(spec_err_indices(d.take(e as int + 1), w, h, max) =~= errs_before);
                    assert(outputs@.last().filename@ == spec_output_filename(d[e as int].name));
                }
            },
            Err(err) => {
                let name = rec.name.clone();
                failures.push(SpriteFailure { name, error: err });
                proof {
                    assert(spec_ok_indices(d.take(e as int + 1), w, h, max) =~= oks_before);
                    assert(spec_err_indices(d.take(e as int + 1), w, h, max) =~= errs_before
                        + seq![e as int]);
                    assert(failures@.last().name@ == d[e as int].name);
                }
            },
        }
        e = e + 1;
    }
    Ok(
        AtlasPlan {
            records,
            bin_w,
            bin_h,
            boxes,
            box_records,
            packing,
            outputs,
            failures,
        },
    )
}

/// Analyzes one atlas from its descriptor text: the text is parsed as XML,
/// and the resulting elements go through `process_atlas`. Malformed XML or a
/// malformed sprite element abandons the atlas with a recoverable error.
pub fn process_descriptor_text(text: &str, src: &ImageBuf) -> (r: Result<AtlasPlan, AtlasError>)
    requires
        src.wf(),
    ensures
        match xml_nodes_of(text@) {
            None => r matches Err(AtlasError::Xml),
            Some(ev) => match r {
                Ok(plan) => plan_ok(plan, ev, *src),
                Err(AtlasError::Parse(pe)) => spec_parse_records(ev) == Err::<
                    Seq<SpriteRecordV>,
                    crate::parse::ParseErrorV,
                >(pe@),
                Err(AtlasError::Xml) => false,
            },
        },
{
    let elems = match parse_xml_nodes(text) {
        Err(_) => {
            return Err(AtlasError::Xml);
        },
        Ok(es) => es,
    };
    match process_atlas(&elems, src) {
        Err(pe) => Err(AtlasError::Parse(pe)),
        Ok(plan) => Ok(plan),
    }
}

} // verus!
