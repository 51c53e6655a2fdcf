//! Metadata parser: descriptor elements, given as plain attribute lists, to
//! an ordered sequence of sprite records.
//!
//! Every element carrying an `x` attribute is a sprite entry; other elements
//! are ignored. A sprite entry must carry `name`, `x`, `y`, `width` and
//! `height`, the numeric ones parsing as `i32`; the four trim attributes are
//! all-or-nothing. Any violation is a recoverable `ParseError` naming the
//! attribute and the element. Duplicate names follow the documented
//! last-write-wins policy.
use vstd::prelude::*;

use crate::dedup::lemma_keep_last_distinct;
use crate::dedup::recs_view;
use crate::dedup::same_name_fn;
use crate::dedup::spec_keep_last;
use crate::numparse::parse_i32;
use crate::numparse::spec_parse_i32;
use crate::records::SpriteRecord;
use crate::records::SpriteRecordV;
use crate::records::Trim;
use crate::records::TrimV;

verus! {

/// One attribute of a descriptor element, already decoded to plain text.
pub struct RawAttr {
    pub name: String,
    pub value: String,
}

/// Ghost view of `RawAttr`.
#[verifier::ext_equal]
pub ghost struct RawAttrV {
    pub name: Seq<char>,
    pub value: Seq<char>,
}

impl View for RawAttr {
    type V = RawAttrV;

    open spec fn view(&self) -> RawAttrV {
        RawAttrV { name: self.name@, value: self.value@ }
    }
}

/// One descriptor element: its tag name and its attributes, in document
/// order. Non-element nodes carry `is_element == false` and no attributes.
pub struct RawElement {
    pub is_element: bool,
    pub tag: String,
    pub attrs: Vec<RawAttr>,
}

/// Ghost view of `RawElement`.
#[verifier::ext_equal]
pub ghost struct RawElementV {
    pub is_element: bool,
    pub tag: Seq<char>,
    pub attrs: Seq<RawAttrV>,
}

impl View for RawElement {
    type V = RawElementV;

    open spec fn view(&self) -> RawElementV {
        RawElementV {
            is_element: self.is_element,
            tag: self.tag@,
            attrs: Seq::new(self.attrs@.len(), |i: int| self.attrs@[i]@),
        }
    }
}

/// Ghost view of a whole element sequence.
pub open spec fn elems_view(v: Seq<RawElement>) -> Seq<RawElementV> {
    Seq::new(v.len(), |i: int| v[i]@)
}

/// Why one atlas's descriptor was rejected; parsing aborts only that atlas.
#[derive(Debug)]
pub enum ParseError {
    /// A sprite entry lacks a required attribute.
    MissingAttribute { tag: String, attr: String },
    /// An attribute is present but does not parse as an `i32`.
    InvalidNumber { tag: String, attr: String },
    /// Some, but not all, of the four trim attributes are present.
    PartialTrim { tag: String },
}

/// Ghost view of `ParseError`.
#[verifier::ext_equal]
pub ghost enum ParseErrorV {
    MissingAttribute { tag: Seq<char>, attr: Seq<char> },
    InvalidNumber { tag: Seq<char>, attr: Seq<char> },
    PartialTrim { tag: Seq<char> },
}

impl View for ParseError {
    type V = ParseErrorV;

    open spec fn view(&self) -> ParseErrorV {
        match self {
            ParseError::MissingAttribute { tag, attr } => ParseErrorV::MissingAttribute {
                tag: tag@,
                attr: attr@,
            },
            ParseError::InvalidNumber { tag, attr } => ParseErrorV::InvalidNumber {
                tag: tag@,
                attr: attr@,
            },
            ParseError::PartialTrim { tag } => ParseErrorV::PartialTrim { tag: tag@ },
        }
    }
}

/// The value of the first attribute named `key`, if any.
pub open spec fn spec_attr(attrs: Seq<RawAttrV>, key: Seq<char>) -> Option<Seq<char>>
    decreases attrs.len(),
{
    if attrs.len() == 0 {
        None
    } else if attrs[0].name == key {
        Some(attrs[0].value)
    } else {
        spec_attr(attrs.drop_first(), key)
    }
}

pub open spec fn has_attr(e: RawElementV, key: Seq<char>) -> bool {
    spec_attr(e.attrs, key) is Some
}

/// An element counts as a sprite entry when it carries an `x` attribute.
pub open spec fn is_sprite_entry(e: RawElementV) -> bool {
    e.is_element && has_attr(e, "x"@)
}

/// A required integer attribute: missing or non-numeric values are errors.
pub open spec fn spec_req_i32(e: RawElementV, key: Seq<char>) -> Result<int, ParseErrorV> {
    match spec_attr(e.attrs, key) {
        None => Err(ParseErrorV::MissingAttribute { tag: e.tag, attr: key }),
        Some(v) => match spec_parse_i32(v) {
            None => Err(ParseErrorV::InvalidNumber { tag: e.tag, attr: key }),
            Some(n) => Ok(n),
        },
    }
}

/// The trim attributes are all-or-nothing: none yields an untrimmed record,
/// all four yield trim data, anything else is a `PartialTrim` error.
pub open spec fn spec_parse_trim(e: RawElementV) -> Result<Option<TrimV>, ParseErrorV> {
    let px = has_attr(e, "frameX"@);
    let py = has_attr(e, "frameY"@);
    let pw = has_attr(e, "frameWidth"@);
    let ph = has_attr(e, "frameHeight"@);
    if !px && !py && !pw && !ph {
        Ok(None)
    } else if px && py && pw && ph {
        match spec_req_i32(e, "frameX"@) {
            Err(er) => Err(er),
            Ok(fx) => match spec_req_i32(e, "frameY"@) {
                Err(er) => Err(er),
                Ok(fy) => match spec_req_i32(e, "frameWidth"@) {
                    Err(er) => Err(er),
                    Ok(fw) => match spec_req_i32(e, "frameHeight"@) {
                        Err(er) => Err(er),
                        Ok(fh) => Ok(
                            Some(TrimV { frame_x: fx, frame_y: fy, frame_w: fw, frame_h: fh }),
                        ),
                    },
                },
            },
        }
    } else {
        Err(ParseErrorV::PartialTrim { tag: e.tag })
    }
}

/// What parsing one element yields: `Ok(None)` for a non-sprite element, a
/// record for a well-formed sprite entry, an error otherwise. Required
/// attributes are checked in the order `name, x, y, width, height`, then the
/// trim set.
pub open spec fn spec_parse_element(e: RawElementV) -> Result<Option<SpriteRecordV>, ParseErrorV> {
    if !is_sprite_entry(e) {
        Ok(None)
    } else {
        match spec_attr(e.attrs, "name"@) {
            None => Err(ParseErrorV::MissingAttribute { tag: e.tag, attr: "name"@ }),
            Some(nm) => match spec_req_i32(e, "x"@) {
                Err(er) => Err(er),
                Ok(x) => match spec_req_i32(e, "y"@) {
                    Err(er) => Err(er),
                    Ok(y) => match spec_req_i32(e, "width"@) {
                        Err(er) => Err(er),
                        Ok(w) => match spec_req_i32(e, "height"@) {
                            Err(er) => Err(er),
                            Ok(h) => match spec_parse_trim(e) {
                                Err(er) => Err(er),
                                Ok(t) => Ok(
                                    Some(
                                        SpriteRecordV {
                                            name: nm,
                                            x: x,
                                            y: y,
                                            width: w,
                                            height: h,
                                            trim: t,
                                        },
                                    ),
                                ),
                            },
                        },
                    },
                },
            },
        }
    }
}

/// The records of all sprite entries, in document order; the first erroneous
/// element aborts the whole descriptor.
pub open spec fn spec_collect_records(elems: Seq<RawElementV>) -> Result<
    Seq<SpriteRecordV>,
    ParseErrorV,
>
    decreases elems.len(),
{
    if elems.len() == 0 {
        Ok(Seq::empty())
    } else {
        match spec_collect_records(elems.drop_last()) {
            Err(er) => Err(er),
            Ok(rs) => match spec_parse_element(elems.last()) {
                Err(er) => Err(er),
                Ok(None) => Ok(rs),
                Ok(Some(r)) => Ok(rs.push(r)),
            },
        }
    }
}

/// The whole parser: collect records in order, then let the last record under
/// each duplicated name win.
pub open spec fn spec_parse_records(elems: Seq<RawElementV>) -> Result<
    Seq<SpriteRecordV>,
    ParseErrorV,
> {
    match spec_collect_records(elems) {
        Err(er) => Err(er),
        Ok(rs) => Ok(spec_keep_last(rs, same_name_fn())),
    }
}

/// How many elements count as sprite entries.
pub open spec fn count_sprites(elems: Seq<RawElementV>) -> int
    decreases elems.len(),
{
    if elems.len() == 0 {
        0
    } else {
        count_sprites(elems.drop_last()) + if is_sprite_entry(elems.last()) {
            1int
        } else {
            0int
        }
    }
}

/// The record a well-formed sprite entry parses to.
pub open spec fn record_of(e: RawElementV) -> SpriteRecordV {
    match spec_parse_element(e) {
        Ok(Some(r)) => r,
        _ => vstd::pervasive::arbitrary(),
    }
}

/// The records of a descriptor whose elements all parse, in document order.
pub open spec fn collect_ok(elems: Seq<RawElementV>) -> Seq<SpriteRecordV>
    decreases elems.len(),
{
    if elems.len() == 0 {
        Seq::empty()
    } else {
        collect_ok(elems.drop_last()) + if is_sprite_entry(elems.last()) {
            seq![record_of(elems.last())]
        } else {
            Seq::empty()
        }
    }
}

/// A sprite entry whose required attributes are present and numeric and whose
/// trim attributes are complete parses to a record.
pub open spec fn well_formed_sprite(e: RawElementV) -> bool {
    is_sprite_entry(e) ==> spec_parse_element(e) matches Ok(Some(_))
}

/// Every record collected from well-formed elements originates in some sprite
/// entry of the descriptor.
proof fn lemma_collect_ok_sources(elems: Seq<RawElementV>, k: int)
    requires
        0 <= k < collect_ok(elems).len(),
    ensures
        exists|i: int|
            0 <= i < elems.len() && is_sprite_entry(#[trigger] elems[i]) && collect_ok(elems)[k]
                == record_of(elems[i]),
    decreases elems.len(),
{
    let prev = collect_ok(elems.drop_last());
    if k < prev.len() {
        lemma_collect_ok_sources(elems.drop_last(), k);
        let i = choose|i: int|
            0 <= i < elems.drop_last().len() && is_sprite_entry(#[trigger] elems.drop_last()[i])
                && prev[k] == record_of(elems.drop_last()[i]);
        assert(elems.drop_last()[i] == elems[i]);
        assert(collect_ok(elems)[k] == prev[k]);
    } else {
        assert(is_sprite_entry(elems.last()));
        assert(collect_ok(elems)[k] == record_of(elems[elems.len() - 1]));
    }
}

/// Two positions of the collected sequence originate in two sprite entries in
/// the same order: the collection walks the descriptor front to back.
proof fn lemma_collect_ok_sources_pair(elems: Seq<RawElementV>, k: int, l: int)
    requires
        0 <= k < l < collect_ok(elems).len(),
    ensures
        exists|i: int, j: int|
            0 <= i < j < elems.len() && is_sprite_entry(#[trigger] elems[i]) && is_sprite_entry(
                #[trigger] elems[j],
            ) && collect_ok(elems)[k] == record_of(elems[i]) && collect_ok(elems)[l] == record_of(
                elems[j],
            ),
    decreases elems.len(),
{
    let rs = collect_ok(elems);
    let prefix = elems.drop_last();
    let prev = collect_ok(prefix);
    assert(forall|i: int| 0 <= i < prefix.len() ==> prefix[i] == elems[i]);
    if l < prev.len() {
        lemma_collect_ok_sources_pair(prefix, k, l);
        let (i, j) = choose|i: int, j: int|
            0 <= i < j < prefix.len() && is_sprite_entry(#[trigger] prefix[i]) && is_sprite_entry(
                #[trigger] prefix[j],
            ) && prev[k] == record_of(prefix[i]) && prev[l] == record_of(prefix[j]);
        assert(rs[k] == prev[k] && rs[l] == prev[l]);
        assert(0 <= i < j < elems.len() && is_sprite_entry(elems[i]) && is_sprite_entry(elems[j])
            && rs[k] == record_of(elems[i]) && rs[l] == record_of(elems[j]));
    } else {
        // `l` is the record appended for the last element, a sprite entry.
        assert(is_sprite_entry(elems.last()));
        assert(l == prev.len());
        assert(rs[l] == record_of(elems[elems.len() - 1]));
        lemma_collect_ok_sources(prefix, k);
        let i = choose|i: int|
            0 <= i < prefix.len() && is_sprite_entry(#[trigger] prefix[i]) && prev[k] == record_of(
                prefix[i],
            );
        let j = elems.len() - 1;
        assert(rs[k] == prev[k]);
        assert(0 <= i < j < elems.len() && is_sprite_entry(elems[i]) && is_sprite_entry(elems[j])
            && rs[k] == record_of(elems[i]) && rs[l] == record_of(elems[j]));
    }
}

/// For a descriptor whose sprite entries are all well-formed and carry
/// pairwise distinct record names, the parser succeeds and yields exactly one
/// record per sprite entry, in document order, each holding exactly the
/// values its element's attributes parse to.
pub proof fn lemma_parser_exact(elems: Seq<RawElementV>)
    requires
        forall|i: int| 0 <= i < elems.len() ==> well_formed_sprite(#[trigger] elems[i]),
        forall|i: int, j: int|
            0 <= i < j < elems.len() && is_sprite_entry(#[trigger] elems[i]) && is_sprite_entry(
                #[trigger] elems[j],
            ) ==> record_of(elems[i]).name != record_of(elems[j]).name,
    ensures
        spec_collect_records(elems) == Ok::<Seq<SpriteRecordV>, ParseErrorV>(collect_ok(elems)),
        spec_parse_records(elems) == Ok::<Seq<SpriteRecordV>, ParseErrorV>(collect_ok(elems)),
        collect_ok(elems).len() == count_sprites(elems),
        forall|i: int|
            0 <= i < elems.len() && is_sprite_entry(#[trigger] elems[i]) ==> collect_ok(
                elems,
            ).contains(record_of(elems[i])),
    decreases elems.len(),
{
    let rs = collect_ok(elems);
    if elems.len() == 0 {
        assert(spec_collect_records(elems) == Ok::<Seq<SpriteRecordV>, ParseErrorV>(
            Seq::empty(),
        ));
        lemma_keep_last_distinct(rs, same_name_fn());
    } else {
        let prefix = elems.drop_last();
        let last = elems.last();
        assert(forall|i: int| 0 <= i < prefix.len() ==> prefix[i] == elems[i]);
        lemma_parser_exact(prefix);
        let prev = collect_ok(prefix);
        if is_sprite_entry(last) {
            assert(well_formed_sprite(elems[elems.len() - 1]));
            assert(spec_parse_element(last) == Ok::<Option<SpriteRecordV>, ParseErrorV>(
                Some(record_of(last)),
            ));
            assert(rs =~= prev.push(record_of(last)));
        } else {
            assert(spec_parse_element(last) == Ok::<Option<SpriteRecordV>, ParseErrorV>(None));
            assert(rs =~= prev);
        }
        assert(spec_collect_records(elems) == Ok::<Seq<SpriteRecordV>, ParseErrorV>(rs));
        // Every sprite entry's record is in the result.
        assert forall|i: int|
            0 <= i < elems.len() && is_sprite_entry(#[trigger] elems[i]) implies rs.contains(
            record_of(elems[i]),
        ) by {
            if i < elems.len() - 1 {
                assert(prefix[i] == elems[i]);
                assert(prev.contains(record_of(prefix[i])));
                let k = choose|k: int| 0 <= k < prev.len() && prev[k] == record_of(prefix[i]);
                assert(rs[k] == record_of(elems[i]));
            } else {
                assert(rs[rs.len() - 1] == record_of(elems[i]));
            }
        }
        // Collected names are pairwise distinct, so the name rule keeps all.
        assert forall|k: int, l: int| 0 <= k < l < rs.len() implies rs[k].name != rs[l].name by {
            lemma_collect_ok_sources_pair(elems, k, l);
            let (i, j) = choose|i: int, j: int|
                0 <= i < j < elems.len() && is_sprite_entry(#[trigger] elems[i])
                    && is_sprite_entry(#[trigger] elems[j]) && rs[k] == record_of(elems[i]) && rs[l]
                    == record_of(elems[j]);
            assert(record_of(elems[i]).name != record_of(elems[j]).name);
        }
        assert(forall|k: int, l: int| 0 <= k < l < rs.len() ==> !(same_name_fn()(rs[k], rs[l])));
        lemma_keep_last_distinct(rs, same_name_fn());
    }
}

/// The value of the first attribute of `e` named `key`, if any.
fn get_attr<'a>(e: &'a RawElement, key: &String) -> (r: Option<&'a String>)
    ensures
        match r {
            Some(v) => spec_attr(e@.attrs, key@) == Some(v@),
            None => spec_attr(e@.attrs, key@) is None,
        },
{
    let n = e.attrs.len();
    let mut i: usize = 0;
    proof {
        assert(e@.attrs.skip(0) =~= e@.attrs);
    }
    while i < n
        invariant
            i <= n,
            n == e.attrs@.len(),
            e@.attrs.len() == n,
            spec_attr(e@.attrs.skip(i as int), key@) == spec_attr(e@.attrs, key@),
        decreases n - i,
    {
        proof {
            assert(e@.attrs.skip(i as int)[0] == e@.attrs[i as int]);
            assert(e@.attrs[i as int] == e.attrs@[i as int]@);
            assert(e@.attrs.skip(i as int).drop_first() =~= e@.attrs.skip(i as int + 1));
        }
        if e.attrs[i].name == *key {
            return Some(&e.attrs[i].value);
        }
        i = i + 1;
    }
    proof {
        assert(e@.attrs.skip(n as int) =~= Seq::<RawAttrV>::empty());
    }
    None
}

/// A required `i32` attribute of a sprite entry, or the exact `ParseError`
/// that `spec_req_i32` assigns.
fn req_i32(e: &RawElement, key: &String) -> (r: Result<i32, ParseError>)
    ensures
        match r {
            Ok(v) => spec_req_i32(e@, key@) == Ok::<int, ParseErrorV>(v as int),
            Err(er) => spec_req_i32(e@, key@) == Err::<int, ParseErrorV>(er@),
        },
{
    match get_attr(e, key) {
        None => Err(
            ParseError::MissingAttribute { tag: e.tag.clone(), attr: key.clone() },
        ),
        Some(v) => match parse_i32(v) {
            None => Err(
                ParseError::InvalidNumber { tag: e.tag.clone(), attr: key.clone() },
            ),
            Some(n) => Ok(n),
        },
    }
}

/// Parses one descriptor element exactly as `spec_parse_element` describes.
pub fn parse_element(e: &RawElement) -> (r: Result<Option<SpriteRecord>, ParseError>)
    ensures
        match r {
            Ok(Some(rec)) => spec_parse_element(e@) == Ok::<Option<SpriteRecordV>, ParseErrorV>(
                Some(rec@),
            ),
            Ok(None) => spec_parse_element(e@) == Ok::<Option<SpriteRecordV>, ParseErrorV>(None),
            Err(er) => spec_parse_element(e@) == Err::<Option<SpriteRecordV>, ParseErrorV>(er@),
        },
{
    let key_x: String = "x".to_owned();
    if !e.is_element || matches!(get_attr(e, &key_x), None) {
        return Ok(None);
    }
    let key_name: String = "name".to_owned();
    let name = match get_attr(e, &key_name) {
        None => {
            return Err(ParseError::MissingAttribute { tag: e.tag.clone(), attr: key_name });
        },
        Some(nm) => nm.clone(),
    };
    let x = match req_i32(e, &key_x) {
        Err(er) => {
            return Err(er);
        },
        Ok(v) => v,
    };
    let key_y: String = "y".to_owned();
    let y = match req_i32(e, &key_y) {
        Err(er) => {
            return Err(er);
        },
        Ok(v) => v,
    };
    let key_w: String = "width".to_owned();
    let w = match req_i32(e, &key_w) {
        Err(er) => {
            return Err(er);
        },
        Ok(v) => v,
    };
    let key_h: String = "height".to_owned();
    let h = match req_i32(e, &key_h) {
        Err(er) => {
            return Err(er);
        },
        Ok(v) => v,
    };
    let trim = match parse_trim(e) {
        Err(er) => {
            return Err(er);
        },
        Ok(t) => t,
    };
    Ok(Some(SpriteRecord { name, x, y, width: w, height: h, trim }))
}

/// Parses the all-or-nothing trim attribute set of a sprite entry.
fn parse_trim(e: &RawElement) -> (r: Result<Option<Trim>, ParseError>)
    ensures
        match r {
            Ok(Some(t)) => spec_parse_trim(e@) == Ok::<Option<TrimV>, ParseErrorV>(Some(t@)),
            Ok(None) => spec_parse_trim(e@) == Ok::<Option<TrimV>, ParseErrorV>(None),
            Err(er) => spec_parse_trim(e@) == Err::<Option<TrimV>, ParseErrorV>(er@),
        },
{
    let key_fx: String = "frameX".to_owned();
    let key_fy: String = "frameY".to_owned();
    let key_fw: String = "frameWidth".to_owned();
    let key_fh: String = "frameHeight".to_owned();
    let px = matches!(get_attr(e, &key_fx), Some(_));
    let py = matches!(get_attr(e, &key_fy), Some(_));
    let pw = matches!(get_attr(e, &key_fw), Some(_));
    let ph = matches!(get_attr(e, &key_fh), Some(_));
    if !px && !py && !pw && !ph {
        return Ok(None);
    }
    if !(px && py && pw && ph) {
        return Err(ParseError::PartialTrim { tag: e.tag.clone() });
    }
    let fx = match req_i32(e, &key_fx) {
        Err(er) => {
            return Err(er);
        },
        Ok(v) => v,
    };
    let fy = match req_i32(e, &key_fy) {
        Err(er) => {
            return Err(er);
        },
        Ok(v) => v,
    };
    let fw = match req_i32(e, &key_fw) {
        Err(er) => {
            return Err(er);
        },
        Ok(v) => v,
    };
    let fh = match req_i32(e, &key_fh) {
        Err(er) => {
            return Err(er);
        },
        Ok(v) => v,
    };
    Ok(Some(Trim { frame_x: fx, frame_y: fy, frame_w: fw, frame_h: fh }))
}

/// An erroneous prefix makes the whole descriptor erroneous.
proof fn lemma_collect_err_persists(elems: Seq<RawElementV>, k: int)
    requires
        0 <= k <= elems.len(),
        spec_collect_records(elems.take(k)) is Err,
    ensures
        spec_collect_records(elems) == spec_collect_records(elems.take(k)),
    decreases elems.len() - k,
{
    if k < elems.len() {
        assert(elems.take(k + 1).drop_last() =~= elems.take(k));
        lemma_collect_err_persists(elems, k + 1);
    } else {
        assert(elems.take(k) =~= elems);
    }
}

/// Parses a whole descriptor: every sprite entry in document order, the first
/// error aborting the atlas, then the last record under each duplicated name
/// winning. The result is exactly `spec_parse_records` of the elements.
pub fn parse_records(elems: &Vec<RawElement>) -> (r: Result<Vec<SpriteRecord>, ParseError>)
    ensures
        match r {
            Ok(recs) => spec_parse_records(elems_view(elems@)) == Ok::<
                Seq<SpriteRecordV>,
                ParseErrorV,
            >(recs_view(recs@)),
            Err(er) => spec_parse_records(elems_view(elems@)) == Err::<
                Seq<SpriteRecordV>,
                ParseErrorV,
            >(er@),
        },
{
    let ghost ev = elems_view(elems@);
    let n = elems.len();
    let mut out: Vec<SpriteRecord> = Vec::new();
    let mut i: usize = 0;
    proof {
        assert(ev.take(0) =~= Seq::<RawElementV>::empty());
        assert(recs_view(out@) =~= Seq::<SpriteRecordV>::empty());
    }
    while i < n
        invariant
            i <= n,
            n == elems@.len(),
            ev == elems_view(elems@),
            spec_collect_records(ev.take(i as int)) == Ok::<Seq<SpriteRecordV>, ParseErrorV>(
                recs_view(out@),
            ),
        decreases n - i,
    {
        proof {
            assert(ev.take(i as int + 1).drop_last() =~= ev.take(i as int));
            assert(ev.take(i as int + 1).last() == ev[i as int]);
            assert(ev[i as int] == elems@[i as int]@);
        }
        match parse_element(&elems[i]) {
            Err(er) => {
                proof {
                    lemma_collect_err_persists(ev, i as int + 1);
                    assert(ev.take(ev.len() as int) =~= ev);
                }
                return Err(er);
            },
            Ok(None) => {},
            Ok(Some(rec)) => {
                let ghost prev = recs_view(out@);
                let ghost recv = rec@;
                out.push(rec);
                proof {
                    assert(recs_view(out@) =~= prev.push(recv));
                }
            },
        }
        i = i + 1;
    }
    proof {
        assert(ev.take(n as int) =~= ev);
    }
    let deduped = crate::dedup::dedup_names(&out);
    Ok(deduped)
}

} // verus!
