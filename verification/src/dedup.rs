//! Last-write-wins reduction: of all entries sharing a key, only the last one
//! in input order survives, at the position of that last occurrence. The
//! parser applies it to duplicate names, the deduplicator to duplicate frame
//! rectangles.
use vstd::prelude::*;

use crate::records::SpriteRecord;
use crate::records::SpriteRecordV;

verus! {

/// Does any element after position `i` match `s[i]` under `same`?
pub open spec fn has_later_match<T>(s: Seq<T>, same: spec_fn(T, T) -> bool, i: int) -> bool {
    exists|j: int| i < j < s.len() && same(s[i], s[j])
}

/// The elements among the first `k` of `s` that have no later match anywhere
/// in `s`, in input order.
pub open spec fn keep_last_upto<T>(s: Seq<T>, same: spec_fn(T, T) -> bool, k: int) -> Seq<T>
    decreases k,
{
    if k <= 0 {
        Seq::empty()
    } else {
        let prev = keep_last_upto(s, same, k - 1);
        if has_later_match(s, same, k - 1) {
            prev
        } else {
            prev.push(s[k - 1])
        }
    }
}

/// Keep, of every group of entries that `same` relates, only the last one in
/// input order.
pub open spec fn spec_keep_last<T>(s: Seq<T>, same: spec_fn(T, T) -> bool) -> Seq<T> {
    keep_last_upto(s, same, s.len() as int)
}

/// When no two entries match, the reduction keeps the whole sequence.
pub proof fn lemma_keep_last_upto_distinct<T>(s: Seq<T>, same: spec_fn(T, T) -> bool, k: int)
    requires
        0 <= k <= s.len(),
        forall|i: int, j: int| 0 <= i < j < s.len() ==> !same(s[i], s[j]),
    ensures
        keep_last_upto(s, same, k) == s.take(k),
    decreases k,
{
    if k <= 0 {
        assert(s.take(k) =~= Seq::<T>::empty());
    } else {
        lemma_keep_last_upto_distinct(s, same, k - 1);
        assert(!has_later_match(s, same, k - 1));
        assert(s.take(k) =~= s.take(k - 1).push(s[k - 1]));
    }
}

/// `spec_keep_last` is the identity on sequences without key collisions.
pub proof fn lemma_keep_last_distinct<T>(s: Seq<T>, same: spec_fn(T, T) -> bool)
    requires
        forall|i: int, j: int| 0 <= i < j < s.len() ==> !same(s[i], s[j]),
    ensures
        spec_keep_last(s, same) == s,
{
    lemma_keep_last_upto_distinct(s, same, s.len() as int);
    assert(s.take(s.len() as int) =~= s);
}

/// The key relation of the frame deduplicator: identical frame rectangles.
pub open spec fn same_frame_fn() -> spec_fn(SpriteRecordV, SpriteRecordV) -> bool {
    |a: SpriteRecordV, b: SpriteRecordV| a.same_frame(b)
}

/// The key relation of the parser's name rule: identical sprite names.
pub open spec fn same_name_fn() -> spec_fn(SpriteRecordV, SpriteRecordV) -> bool {
    |a: SpriteRecordV, b: SpriteRecordV| a.name == b.name
}

/// Ghost view of a whole record sequence.
pub open spec fn recs_view(v: Seq<SpriteRecord>) -> Seq<SpriteRecordV> {
    Seq::new(v.len(), |i: int| v[i]@)
}

impl SpriteRecord {
    /// A field-for-field copy; `String` cloning keeps the value.
    pub fn duplicate(&self) -> (r: SpriteRecord)
        ensures
            r@ == self@,
    {
        SpriteRecord {
            name: self.name.clone(),
            x: self.x,
            y: self.y,
            width: self.width,
            height: self.height,
            trim: self.trim,
        }
    }
}

/// Do two records locate the same pixel region (equal frame rectangles)?
pub fn frames_equal(a: &SpriteRecord, b: &SpriteRecord) -> (r: bool)
    ensures
        r == a@.same_frame(b@),
{
    a.x == b.x && a.y == b.y && a.width == b.width && a.height == b.height
}

/// Removes every record whose frame rectangle reappears later in the input:
/// among records sharing a frame, the last one encountered is kept. Trim data
/// and names are not compared.
pub fn dedup_frames(records: &Vec<SpriteRecord>) -> (r: Vec<SpriteRecord>)
    ensures
        recs_view(r@) == spec_keep_last(recs_view(records@), same_frame_fn()),
{
    dedup_by(records, false)
}

/// Removes every record whose name reappears later in the input: the last
/// record under each name wins.
pub fn dedup_names(records: &Vec<SpriteRecord>) -> (r: Vec<SpriteRecord>)
    ensures
        recs_view(r@) == spec_keep_last(recs_view(records@), same_name_fn()),
{
    dedup_by(records, true)
}

/// Shared keep-last loop; `by_name` picks the key relation.
fn dedup_by(records: &Vec<SpriteRecord>, by_name: bool) -> (r: Vec<SpriteRecord>)
    ensures
        recs_view(r@) == spec_keep_last(
            recs_view(records@),
            if by_name {
                same_name_fn()
            } else {
                same_frame_fn()
            },
        ),
{
    let ghost s = recs_view(records@);
    let ghost same = if by_name {
        same_name_fn()
    } else {
        same_frame_fn()
    };
    let n = records.len();
    let mut out: Vec<SpriteRecord> = Vec::new();
    let mut i: usize = 0;
    while i < n
        invariant
            i <= n,
            n == records@.len(),
            s == recs_view(records@),
            same == (if by_name {
                same_name_fn()
            } else {
                same_frame_fn()
            }),
            recs_view(out@) == keep_last_upto(s, same, i as int),
        decreases n - i,
    {
        let mut dup = false;
        let mut j = i + 1;
        while j < n
            invariant
                i < j <= n,
                i < n,
                n == records@.len(),
                s == recs_view(records@),
                same == (if by_name {
                    same_name_fn()
                } else {
                    same_frame_fn()
                }),
                dup == exists|j2: int| i < j2 < j && same(s[i as int], s[j2]),
            decreases n - j,
        {
            let m = if by_name {
                records[i].name == records[j].name
            } else {
                frames_equal(&records[i], &records[j])
            };
            proof {
                assert(s[i as int] == records@[i as int]@);
                assert(s[j as int] == records@[j as int]@);
            }
            dup = dup || m;
            j = j + 1;
        }
        proof {
            assert(dup == has_later_match(s, same, i as int));
        }
        if !dup {
            out.push(records[i].duplicate());
        }
        proof {
            assert(recs_view(out@) =~= keep_last_upto(s, same, i as int + 1));
        }
        i = i + 1;
    }
    proof {
        assert(keep_last_upto(s, same, n as int) == spec_keep_last(s, same));
    }
    out
}

/// Of two records with identical frames, only the second survives; two
/// records with different frames both survive.
pub proof fn lemma_dedup_pair(a: SpriteRecordV, b: SpriteRecordV)
    ensures
        a.same_frame(b) ==> spec_keep_last(seq![a, b], same_frame_fn()) == seq![b],
        !a.same_frame(b) ==> spec_keep_last(seq![a, b], same_frame_fn()) == seq![a, b],
{
    let s = seq![a, b];
    let same = same_frame_fn();
    assert(keep_last_upto(s, same, 0) == Seq::<SpriteRecordV>::empty());
    assert(!has_later_match(s, same, 1));
    if a.same_frame(b) {
        assert(same(s[0], s[1]));
        assert(has_later_match(s, same, 0));
        assert(keep_last_upto(s, same, 1) =~= Seq::<SpriteRecordV>::empty());
        assert(spec_keep_last(s, same) =~= seq![b]);
    } else {
        assert(!same(s[0], s[1]));
        assert(!has_later_match(s, same, 0)) by {
            if has_later_match(s, same, 0) {
                let j = choose|j: int| #![trigger s[j]] 0 < j < s.len() && same(s[0], s[j]);
                assert(j == 1);
            }
        }
        assert(keep_last_upto(s, same, 1) =~= seq![a]);
        assert(spec_keep_last(s, same) =~= seq![a, b]);
    }
}

} // verus!
