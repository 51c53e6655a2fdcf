use optifunkin::dedup::{dedup_frames, dedup_names};
use optifunkin::packer::{feasibility_check, pack, PackBox, Rect};
use optifunkin::records::SpriteRecord;

fn rec(name: &str, x: i32, y: i32, w: i32, h: i32) -> SpriteRecord {
    SpriteRecord { name: name.to_string(), x, y, width: w, height: h, trim: None }
}

#[test]
fn identical_frames_keep_only_the_last_record() {
    let records = vec![rec("a", 0, 0, 16, 16), rec("b", 0, 0, 16, 16)];
    let deduped = dedup_frames(&records);
    assert_eq!(deduped.len(), 1);
    assert_eq!(deduped[0].name, "b");
}

#[test]
fn disjoint_frames_both_survive() {
    let records = vec![rec("a", 0, 0, 16, 16), rec("b", 16, 0, 16, 16)];
    let deduped = dedup_frames(&records);
    assert_eq!(deduped.len(), 2);
    assert_eq!(deduped[0].name, "a");
    assert_eq!(deduped[1].name, "b");
}

#[test]
fn name_dedup_keeps_the_last_record() {
    let records = vec![rec("x", 0, 0, 1, 1), rec("x", 5, 5, 1, 1), rec("y", 9, 9, 1, 1)];
    let deduped = dedup_names(&records);
    assert_eq!(deduped.len(), 2);
    assert_eq!(deduped[0].x, 5);
    assert_eq!(deduped[1].name, "y");
}

fn rects_overlap(ax: u64, ay: u64, aw: u64, ah: u64, bx: u64, by: u64, bw: u64, bh: u64) -> bool {
    ax < bx + bw && bx < ax + aw && ay < by + bh && by < ay + ah
}

#[test]
fn packed_boxes_do_not_overlap_and_stay_in_the_bin() {
    let boxes = vec![
        PackBox { w: 16, h: 16 },
        PackBox { w: 16, h: 16 },
        PackBox { w: 8, h: 8 },
        PackBox { w: 24, h: 4 },
    ];
    let bins = vec![Rect { x: 0, y: 0, w: 32, h: 32 }];
    let r = pack(&boxes, &bins);
    assert_eq!(r.unplaced.len(), 0);
    assert_eq!(r.placed.len(), 4);
    for p in &r.placed {
        let b = &boxes[p.box_index];
        assert!(p.x + b.w <= 32);
        assert!(p.y + b.h <= 32);
    }
    for i in 0..r.placed.len() {
        for j in (i + 1)..r.placed.len() {
            let (p, q) = (&r.placed[i], &r.placed[j]);
            if p.bin_index == q.bin_index {
                let (pb, qb) = (&boxes[p.box_index], &boxes[q.box_index]);
                assert!(!rects_overlap(p.x, p.y, pb.w, pb.h, q.x, q.y, qb.w, qb.h));
            }
        }
    }
}

#[test]
fn larger_boxes_are_placed_first() {
    let boxes = vec![PackBox { w: 4, h: 4 }, PackBox { w: 16, h: 16 }];
    let bins = vec![Rect { x: 0, y: 0, w: 16, h: 20 }];
    let r = pack(&boxes, &bins);
    assert_eq!(r.unplaced.len(), 0);
    // The larger box goes in first, flush at the bin's corner.
    let big = r.placed.iter().find(|p| p.box_index == 1).unwrap();
    assert_eq!((big.x, big.y), (0, 0));
    assert_eq!(r.placed_area, 16 * 16 + 4 * 4);
    assert_eq!(r.bin_area, 16 * 20);
}

#[test]
fn oversized_box_fails_the_feasibility_check() {
    let boxes = vec![PackBox { w: 40, h: 16 }, PackBox { w: 8, h: 8 }];
    match feasibility_check(&boxes, 32, 32) {
        Err(failure) => {
            assert_eq!(failure.unplaced, vec![0]);
            // The remaining box is still placed, and the packed percentage is
            // computed over the boxes actually placed.
            assert_eq!(failure.placed.len(), 1);
            assert_eq!(failure.placed[0].box_index, 1);
            assert_eq!(failure.placed_area, 8 * 8);
            assert_eq!(failure.bin_area, 32 * 32);
        }
        Ok(_) => panic!("an oversized box cannot be placed"),
    }
}

#[test]
fn feasibility_check_succeeds_when_all_boxes_fit() {
    let boxes = vec![PackBox { w: 16, h: 16 }, PackBox { w: 16, h: 16 }];
    let r = feasibility_check(&boxes, 32, 16).unwrap();
    assert_eq!(r.unplaced.len(), 0);
    assert_eq!(r.placed.len(), 2);
    assert_eq!(r.placed_area, 2 * 16 * 16);
    assert_eq!(r.bin_area, 32 * 16);
}

#[test]
fn bin_too_fragmented_reports_the_box_unplaced() {
    // Two tall boxes fill the bin's width; a wide box fits by area alone.
    let boxes = vec![PackBox { w: 8, h: 16 }, PackBox { w: 8, h: 16 }, PackBox { w: 12, h: 2 }];
    match feasibility_check(&boxes, 16, 16) {
        Err(failure) => {
            assert_eq!(failure.unplaced, vec![2]);
            assert_eq!(failure.placed.len(), 2);
            assert_eq!(failure.placed_area, 2 * 8 * 16);
        }
        Ok(_) => panic!("the leftover space cannot hold a 12-wide box"),
    }
}

#[test]
fn boxes_spill_into_a_second_bin() {
    let boxes = vec![PackBox { w: 16, h: 16 }, PackBox { w: 16, h: 16 }, PackBox { w: 16, h: 16 }];
    let bins = vec![Rect { x: 0, y: 0, w: 16, h: 32 }, Rect { x: 100, y: 50, w: 16, h: 16 }];
    let r = pack(&boxes, &bins);
    assert_eq!(r.unplaced.len(), 0);
    let in_second: Vec<_> = r.placed.iter().filter(|p| p.bin_index == 1).collect();
    assert_eq!(in_second.len(), 1);
    assert!(in_second[0].x >= 100 && in_second[0].y >= 50);
}
