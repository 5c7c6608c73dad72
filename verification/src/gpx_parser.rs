//! The track parser.
//!
//! A GPX document arrives as a stream of structural events — element
//! open, element close, text — and a state machine folds them into a
//! validated [`Track`].  The whole fold is specified exactly by
//! [`parse_track_s`]; the xml crate supplies the event stream behind one
//! trusted wrapper, and chrono reads RFC 3339 timestamps behind another.
//!
//! Tags are recognized by a namespace and a local name; anything outside
//! the two known namespaces, or any unknown local name within them, is
//! skipped silently.  Within each segment the parser watches the order of
//! point timestamps and, when a point arrives out of order, re-sorts the
//! finished segment stably by time, so that every segment of a returned
//! track is in ascending time order.
use vstd::prelude::*;
use crate::decimal::{parse_decimal, parse_decimal_s, parse_u8_s, parse_u8_text};
use crate::{sorted_by_time, ParseError, Track, TrackPoint, TrackSegment, TrackView};
use vstd::multiset::Multiset;

verus! {

/// The recognized vocabulary.
#[derive(Debug, Copy, Clone, PartialEq, Eq, Structural)]
pub enum GpxXmlTag {
    Gpx,
    Metadata,
    Track,
    Name,
    TrackSegment,
    TrackPoint,
    Elevation,
    Time,
    ExtHeartRate,
    ExtCadence,
}

/// One attribute of an element-open event: a local name and a value.
#[derive(Debug)]
pub struct Attr {
    pub name: String,
    pub value: String,
}

/// One structural event of a document.
#[derive(Debug)]
pub enum RawEvent {
    Start { namespace: Option<String>, local: String, attributes: Vec<Attr> },
    End { namespace: Option<String>, local: String },
    Text { content: String },
}

/// The abstract value of an [`Attr`].
#[verifier::ext_equal]
pub struct AttrV {
    pub name: Seq<char>,
    pub value: Seq<char>,
}

/// The abstract value of a [`RawEvent`].
#[verifier::ext_equal]
pub enum EventV {
    Start { namespace: Option<Seq<char>>, local: Seq<char>, attributes: Seq<AttrV> },
    End { namespace: Option<Seq<char>>, local: Seq<char> },
    Text { content: Seq<char> },
}

pub open spec fn attr_view(a: Attr) -> AttrV {
    AttrV { name: a.name@, value: a.value@ }
}

pub open spec fn opt_str_view(s: Option<String>) -> Option<Seq<char>> {
    match s {
        Option::Some(x) => Option::Some(x@),
        Option::None => Option::None,
    }
}

pub open spec fn event_view(e: RawEvent) -> EventV {
    match e {
        RawEvent::Start { namespace, local, attributes } => EventV::Start {
            namespace: opt_str_view(namespace),
            local: local@,
            attributes: attributes@.map_values(|a: Attr| attr_view(a)),
        },
        RawEvent::End { namespace, local } => EventV::End {
            namespace: opt_str_view(namespace),
            local: local@,
        },
        RawEvent::Text { content } => EventV::Text { content: content@ },
    }
}

pub open spec fn events_view(v: Seq<RawEvent>) -> Seq<EventV> {
    v.map_values(|e: RawEvent| event_view(e))
}

/// What the xml crate's pull parser yields for a byte sequence: the
/// document's element-open, element-close and text events in order, or
/// nothing when the document is not well formed.
pub uninterp spec fn xml_events_of(data: Seq<u8>) -> Option<Seq<EventV>>;

/// Relies on `xml::EventReader` (the xml crate's pull parser): pulled to
/// the end of a byte slice, it yields the document's element events in
/// order, a pure function of the bytes, or an error for a document that
/// is not well formed.  Whitespace, comments and processing instructions
/// carry no recognized data and are dropped.
#[verifier::external_body]
fn xml_events(data: &[u8]) -> (r: Result<Vec<RawEvent>, ()>)
    ensures
        match r {
            Result::Ok(v) => xml_events_of(data@) == Option::Some(events_view(v@)),
            Result::Err(_) => xml_events_of(data@) is None,
        },
{
    let mut out = Vec::new();
    for e in xml::EventReader::new(data) {
        match e {
            Ok(xml::reader::XmlEvent::StartElement { name, attributes, .. }) => {
                let attributes = attributes.into_iter().map(|a| Attr { name: a.name.local_name, value: a.value }).collect();
                out.push(RawEvent::Start { namespace: name.namespace, local: name.local_name, attributes });
            }
            Ok(xml::reader::XmlEvent::EndElement { name, .. }) => out.push(RawEvent::End { namespace: name.namespace, local: name.local_name }),
            Ok(xml::reader::XmlEvent::Characters(content)) => out.push(RawEvent::Text { content }),
            Ok(_) => {}
            Err(_) => return Err(()),
        }
    }
    Ok(out)
}

/// What chrono reads out of an RFC 3339 timestamp: its instant as
/// milliseconds since the Unix epoch, or nothing for malformed text.
pub uninterp spec fn rfc3339_millis_of(s: Seq<char>) -> Option<i64>;

/// Relies on `chrono::DateTime::parse_from_rfc3339` followed by
/// `timestamp_millis`: together they turn RFC 3339 text into the
/// instant's milliseconds since the Unix epoch, a function of the text
/// alone, and fail exactly on malformed text.
#[verifier::external_body]
fn parse_rfc3339_millis(s: &str) -> (r: Option<i64>)
    ensures
        r == rfc3339_millis_of(s@),
{
    match chrono::DateTime::parse_from_rfc3339(s) {
        Ok(dt) => Some(dt.timestamp_millis()),
        Err(_) => None,
    }
}

/// The tag meaning of a topografix-namespace local name.
pub open spec fn topo_tag(t: Seq<char>) -> Option<GpxXmlTag> {
    if t == ("gpx")@ {
        Option::Some(GpxXmlTag::Gpx)
    } else if t == ("metadata")@ {
        Option::Some(GpxXmlTag::Metadata)
    } else if t == ("trk")@ {
        Option::Some(GpxXmlTag::Track)
    } else if t == ("name")@ {
        Option::Some(GpxXmlTag::Name)
    } else if t == ("trkseg")@ {
        Option::Some(GpxXmlTag::TrackSegment)
    } else if t == ("trkpt")@ {
        Option::Some(GpxXmlTag::TrackPoint)
    } else if t == ("ele")@ {
        Option::Some(GpxXmlTag::Elevation)
    } else if t == ("time")@ {
        Option::Some(GpxXmlTag::Time)
    } else {
        Option::None
    }
}

/// The tag meaning of an extension-namespace local name.
pub open spec fn ext_tag(t: Seq<char>) -> Option<GpxXmlTag> {
    if t == ("hr")@ {
        Option::Some(GpxXmlTag::ExtHeartRate)
    } else if t == ("cad")@ {
        Option::Some(GpxXmlTag::ExtCadence)
    } else {
        Option::None
    }
}

/// The two-level tag lookup: a namespace picks a vocabulary, the local
/// name picks the tag; anything else maps to nothing.
pub open spec fn tag_of_v(ns: Option<Seq<char>>, local: Seq<char>) -> Option<GpxXmlTag> {
    match ns {
        Option::None => Option::None,
        Option::Some(n) => if n == ("http://www.topografix.com/GPX/1/1")@ {
            topo_tag(local)
        } else if n == ("http://www.garmin.com/xmlschemas/TrackPointExtension/v1")@ {
            ext_tag(local)
        } else {
            Option::None
        },
    }
}

fn str_eq_lit(a: &String, b: &str) -> (r: bool)
    ensures
        r == (a@ == b@),
{
    let bs: String = b.to_owned();
    *a == bs
}

/// Resolves an element name against the two recognized namespaces.
pub fn parse_gpx_xml_tag(namespace: &Option<String>, local: &String) -> (r: Option<GpxXmlTag>)
    ensures
        r == tag_of_v(opt_str_view(*namespace), local@),
{
    match namespace {
        None => None,
        Some(n) => {
            if str_eq_lit(n, "http://www.topografix.com/GPX/1/1") {
                if str_eq_lit(local, "gpx") {
                    Some(GpxXmlTag::Gpx)
                } else if str_eq_lit(local, "metadata") {
                    Some(GpxXmlTag::Metadata)
                } else if str_eq_lit(local, "trk") {
                    Some(GpxXmlTag::Track)
                } else if str_eq_lit(local, "name") {
                    Some(GpxXmlTag::Name)
                } else if str_eq_lit(local, "trkseg") {
                    Some(GpxXmlTag::TrackSegment)
                } else if str_eq_lit(local, "trkpt") {
                    Some(GpxXmlTag::TrackPoint)
                } else if str_eq_lit(local, "ele") {
                    Some(GpxXmlTag::Elevation)
                } else if str_eq_lit(local, "time") {
                    Some(GpxXmlTag::Time)
                } else {
                    None
                }
            } else if str_eq_lit(n, "http://www.garmin.com/xmlschemas/TrackPointExtension/v1") {
                if str_eq_lit(local, "hr") {
                    Some(GpxXmlTag::ExtHeartRate)
                } else if str_eq_lit(local, "cad") {
                    Some(GpxXmlTag::ExtCadence)
                } else {
                    None
                }
            } else {
                None
            }
        }
    }
}

/// Stable insertion of a point into a time-sorted sequence: the new
/// point goes after every point with the same or an earlier timestamp.
pub open spec fn insert_by_time(s: Seq<TrackPoint>, p: TrackPoint) -> Seq<TrackPoint>
    decreases s.len(),
{
    if s.len() == 0 {
        seq![p]
    } else if p.time < s.last().time {
        insert_by_time(s.drop_last(), p).push(s.last())
    } else {
        s.push(p)
    }
}

/// Stable insertion sort of a point sequence by ascending timestamp.
pub open spec fn sort_by_time_s(s: Seq<TrackPoint>) -> Seq<TrackPoint>
    decreases s.len(),
{
    if s.len() == 0 {
        Seq::<TrackPoint>::empty()
    } else {
        insert_by_time(sort_by_time_s(s.drop_last()), s.last())
    }
}

/// The parser state: containment flags, the tag whose text is awaited,
/// the point under construction, and the accumulated track parts.
#[verifier::ext_equal]
pub struct ParserV {
    pub in_gpx: bool,
    pub in_metadata: bool,
    pub in_track: bool,
    pub in_segment: bool,
    pub in_point: bool,
    pub current_tag: Option<GpxXmlTag>,
    pub point: TrackPoint,
    pub should_sort: bool,
    pub current: Seq<TrackPoint>,
    pub name: Seq<char>,
    pub start_time: Option<i64>,
    pub segs: Seq<Seq<TrackPoint>>,
}

pub open spec fn parser_init() -> ParserV {
    ParserV {
        in_gpx: false,
        in_metadata: false,
        in_track: false,
        in_segment: false,
        in_point: false,
        current_tag: Option::None,
        point: TrackPoint {
            latitude: 0,
            longitude: 0,
            elevation: 0,
            time: 0,
            heart_rate: 0,
            cadence: 0,
        },
        should_sort: false,
        current: Seq::empty(),
        name: Seq::empty(),
        start_time: Option::None,
        segs: Seq::empty(),
    }
}

/// The latitude and longitude denoted by an attribute list: the last
/// `lat` and `lon` occurrences win, and any occurrence that does not
/// parse as a decimal number poisons the whole list.
pub open spec fn scan_attrs_s(attrs: Seq<AttrV>, k: int) -> Option<(Option<i64>, Option<i64>)>
    decreases k,
{
    if k <= 0 {
        Option::Some((Option::None, Option::None))
    } else {
        match scan_attrs_s(attrs, k - 1) {
            Option::None => Option::None,
            Option::Some((la, lo)) => {
                let a = attrs[k - 1];
                if a.name == ("lat")@ {
                    match parse_decimal_s(a.value, 9) {
                        Option::None => Option::None,
                        Option::Some(v) => Option::Some((Option::Some(v), lo)),
                    }
                } else if a.name == ("lon")@ {
                    match parse_decimal_s(a.value, 9) {
                        Option::None => Option::None,
                        Option::Some(v) => Option::Some((la, Option::Some(v))),
                    }
                } else {
                    Option::Some((la, lo))
                }
            },
        }
    }
}

/// The effect of an element-open event for a recognized tag.
///
/// Containment violations fail with `StructureError`; a point without a
/// readable latitude and longitude fails with `AttributeError`.
pub open spec fn start_tag_s(st: ParserV, tag: GpxXmlTag, attrs: Seq<AttrV>) -> Result<
    ParserV,
    ParseError,
> {
    let st1 = ParserV { current_tag: Option::Some(tag), ..st };
    match tag {
        GpxXmlTag::Gpx => Result::Ok(ParserV { in_gpx: true, ..st1 }),
        GpxXmlTag::Metadata => if !st.in_gpx {
            Result::Err(ParseError::StructureError)
        } else {
            Result::Ok(ParserV { in_metadata: true, ..st1 })
        },
        GpxXmlTag::Time => if !st.in_gpx {
            Result::Err(ParseError::StructureError)
        } else {
            Result::Ok(st1)
        },
        GpxXmlTag::Track => Result::Ok(ParserV { in_track: true, ..st1 }),
        GpxXmlTag::Name => if !st.in_gpx || !st.in_track {
            Result::Err(ParseError::StructureError)
        } else {
            Result::Ok(st1)
        },
        GpxXmlTag::TrackSegment => Result::Ok(
            ParserV { in_segment: true, current: Seq::empty(), should_sort: false, ..st1 },
        ),
        GpxXmlTag::TrackPoint => if !st.in_gpx || !st.in_track || !st.in_segment {
            Result::Err(ParseError::StructureError)
        } else {
            match scan_attrs_s(attrs, attrs.len() as int) {
                Option::None => Result::Err(ParseError::AttributeError),
                Option::Some((la, lo)) => match (la, lo) {
                    (Option::Some(lat), Option::Some(lon)) => Result::Ok(
                        ParserV {
                            in_point: true,
                            point: TrackPoint {
                                latitude: lat,
                                longitude: lon,
                                elevation: 0,
                                time: 0,
                                heart_rate: 0,
                                cadence: 0,
                            },
                            ..st1
                        },
                    ),
                    _ => Result::Err(ParseError::AttributeError),
                },
            }
        },
        GpxXmlTag::Elevation => if !st.in_point {
            Result::Err(ParseError::StructureError)
        } else {
            Result::Ok(st1)
        },
        GpxXmlTag::ExtHeartRate => if !st.in_point {
            Result::Err(ParseError::StructureError)
        } else {
            Result::Ok(st1)
        },
        GpxXmlTag::ExtCadence => if !st.in_point {
            Result::Err(ParseError::StructureError)
        } else {
            Result::Ok(st1)
        },
    }
}

/// The effect of a text event, directed by the awaited tag.
pub open spec fn text_s(st: ParserV, content: Seq<char>) -> Result<ParserV, ParseError> {
    match st.current_tag {
        Option::None => Result::Ok(st),
        Option::Some(tag) => match tag {
            GpxXmlTag::Time => match rfc3339_millis_of(content) {
                Option::None => Result::Err(ParseError::TimeFormatError),
                Option::Some(ms) => if st.in_metadata {
                    Result::Ok(ParserV { start_time: Option::Some(ms), ..st })
                } else if st.in_point {
                    Result::Ok(ParserV { point: TrackPoint { time: ms, ..st.point }, ..st })
                } else {
                    Result::Ok(st)
                },
            },
            GpxXmlTag::Name => Result::Ok(ParserV { name: content, ..st }),
            GpxXmlTag::Elevation => match parse_decimal_s(content, 3) {
                Option::None => Result::Err(ParseError::ValueError),
                Option::Some(v) => Result::Ok(
                    ParserV { point: TrackPoint { elevation: v, ..st.point }, ..st },
                ),
            },
            GpxXmlTag::ExtHeartRate => match parse_u8_s(content) {
                Option::None => Result::Err(ParseError::ValueError),
                Option::Some(v) => Result::Ok(
                    ParserV { point: TrackPoint { heart_rate: v, ..st.point }, ..st },
                ),
            },
            GpxXmlTag::ExtCadence => match parse_u8_s(content) {
                Option::None => Result::Err(ParseError::ValueError),
                Option::Some(v) => Result::Ok(
                    ParserV { point: TrackPoint { cadence: v, ..st.point }, ..st },
                ),
            },
            _ => Result::Ok(st),
        },
    }
}

/// A finished segment: sorted by time first if a point ever arrived out
/// of order.
pub open spec fn finished_segment(st: ParserV) -> Seq<TrackPoint> {
    if st.should_sort {
        sort_by_time_s(st.current)
    } else {
        st.current
    }
}

/// The effect of an element-close event for a recognized tag: closing a
/// point appends it to the open segment (noting whether it arrived out
/// of order), closing a segment finalizes it into the track.
pub open spec fn end_tag_s(st: ParserV, tag: GpxXmlTag) -> ParserV {
    let st1 = ParserV { current_tag: Option::None, ..st };
    match tag {
        GpxXmlTag::Gpx => ParserV { in_gpx: false, ..st1 },
        GpxXmlTag::Metadata => ParserV { in_metadata: false, ..st1 },
        GpxXmlTag::Track => ParserV { in_track: false, ..st1 },
        GpxXmlTag::TrackSegment => ParserV {
            in_segment: false,
            segs: st.segs.push(finished_segment(st)),
            current: Seq::empty(),
            should_sort: false,
            ..st1
        },
        GpxXmlTag::TrackPoint => ParserV {
            in_point: false,
            current: st.current.push(st.point),
            should_sort: st.should_sort || (st.current.len() > 0 && st.current.last().time
                > st.point.time),
            ..st1
        },
        _ => st1,
    }
}

/// One event of the fold.
pub open spec fn step_s(st: ParserV, ev: EventV) -> Result<ParserV, ParseError> {
    match ev {
        EventV::Start { namespace, local, attributes } => match tag_of_v(namespace, local) {
            Option::None => Result::Ok(st),
            Option::Some(tag) => start_tag_s(st, tag, attributes),
        },
        EventV::End { namespace, local } => match tag_of_v(namespace, local) {
            Option::None => Result::Ok(st),
            Option::Some(tag) => Result::Ok(end_tag_s(st, tag)),
        },
        EventV::Text { content } => text_s(st, content),
    }
}

/// The state after the first `k` events, or the first error.
pub open spec fn parse_events_s(evs: Seq<EventV>, k: int) -> Result<ParserV, ParseError>
    decreases k,
{
    if k <= 0 {
        Result::Ok(parser_init())
    } else {
        match parse_events_s(evs, k - 1) {
            Result::Err(e) => Result::Err(e),
            Result::Ok(st) => step_s(st, evs[k - 1]),
        }
    }
}

/// End of input: a still-open segment is finished (with its pending sort)
/// and joins the track.
pub open spec fn finish_s(st: ParserV) -> TrackView {
    let segs = if st.in_segment {
        st.segs.push(finished_segment(st))
    } else {
        st.segs
    };
    TrackView { name: st.name, start_time: st.start_time, route: segs }
}

/// The track denoted by an event stream, or the first error.
pub open spec fn parse_track_s(evs: Seq<EventV>) -> Result<TrackView, ParseError> {
    match parse_events_s(evs, evs.len() as int) {
        Result::Err(e) => Result::Err(e),
        Result::Ok(st) => Result::Ok(finish_s(st)),
    }
}

/// How a parse result relates to its abstract counterpart.
pub open spec fn result_matches(r: Result<Track, ParseError>, m: Result<TrackView, ParseError>) -> bool {
    match (r, m) {
        (Result::Ok(t), Result::Ok(tv)) => t@ == tv,
        (Result::Err(e), Result::Err(e2)) => e == e2,
        _ => false,
    }
}

/// What [`read_gpx`] returns for a byte sequence.
pub open spec fn read_gpx_post(data: Seq<u8>, r: Result<Track, ParseError>) -> bool {
    match xml_events_of(data) {
        Option::None => r == Result::<Track, ParseError>::Err(ParseError::XmlError),
        Option::Some(evs) => result_matches(r, parse_track_s(evs)),
    }
}

proof fn lemma_insert_le(s: Seq<TrackPoint>, p: TrackPoint, t: i64)
    requires
        forall|i: int| 0 <= i < s.len() ==> #[trigger] s[i].time <= t,
        p.time <= t,
    ensures
        forall|i: int|
            0 <= i < insert_by_time(s, p).len() ==> #[trigger] insert_by_time(s, p)[i].time <= t,
        insert_by_time(s, p).len() == s.len() + 1,
    decreases s.len(),
{
    if s.len() == 0 {
    } else if p.time < s.last().time {
        assert(forall|i: int|
            0 <= i < s.drop_last().len() ==> #[trigger] s.drop_last()[i].time <= t);
        lemma_insert_le(s.drop_last(), p, t);
        let inner = insert_by_time(s.drop_last(), p);
        assert(forall|i: int|
            0 <= i < inner.push(s.last()).len() ==> #[trigger] inner.push(s.last())[i].time
                <= t) by {
            assert(forall|i: int|
                0 <= i < inner.len() ==> inner.push(s.last())[i] == #[trigger] inner[i]);
        }
    } else {
    }
}

proof fn lemma_sorted_push(s: Seq<TrackPoint>, p: TrackPoint)
    requires
        sorted_by_time(s),
        s.len() > 0 ==> s.last().time <= p.time,
    ensures
        sorted_by_time(s.push(p)),
{
    assert forall|i: int, j: int| 0 <= i <= j < s.push(p).len() implies #[trigger] s.push(
        p,
    )[i].time <= #[trigger] s.push(p)[j].time by {
        if j < s.len() {
            assert(s.push(p)[i] == s[i] && s.push(p)[j] == s[j]);
        } else {
            assert(s.push(p)[j] == p);
            if i < s.len() {
                assert(s.push(p)[i] == s[i]);
                assert(s[i].time <= s.last().time);
            }
        }
    }
}

proof fn lemma_insert_sorted(s: Seq<TrackPoint>, p: TrackPoint)
    requires
        sorted_by_time(s),
    ensures
        sorted_by_time(insert_by_time(s, p)),
    decreases s.len(),
{
    if s.len() == 0 {
        assert(sorted_by_time(seq![p]));
    } else if p.time < s.last().time {
        assert(sorted_by_time(s.drop_last())) by {
            assert(forall|i: int|
                0 <= i < s.drop_last().len() ==> s.drop_last()[i] == #[trigger] s[i]);
        }
        lemma_insert_sorted(s.drop_last(), p);
        assert(forall|i: int|
            0 <= i < s.drop_last().len() ==> #[trigger] s.drop_last()[i].time <= s.last().time) by {
            assert(forall|i: int|
                0 <= i < s.drop_last().len() ==> s.drop_last()[i] == #[trigger] s[i]);
        }
        lemma_insert_le(s.drop_last(), p, s.last().time);
        let inner = insert_by_time(s.drop_last(), p);
        assert(inner.len() > 0 ==> inner.last().time <= s.last().time);
        lemma_sorted_push(inner, s.last());
    } else {
        lemma_sorted_push(s, p);
    }
}

/// A stably time-sorted sequence is sorted.
pub proof fn lemma_sort_sorted(s: Seq<TrackPoint>)
    ensures
        sorted_by_time(sort_by_time_s(s)),
    decreases s.len(),
{
    if s.len() == 0 {
    } else {
        lemma_sort_sorted(s.drop_last());
        lemma_insert_sorted(sort_by_time_s(s.drop_last()), s.last());
    }
}


proof fn lemma_insert_multiset(s: Seq<TrackPoint>, p: TrackPoint)
    ensures
        insert_by_time(s, p).to_multiset() == s.to_multiset().insert(p),
    decreases s.len(),
{
    broadcast use vstd::seq_lib::group_to_multiset_ensures;

    if s.len() == 0 {
        assert(seq![p] =~= Seq::<TrackPoint>::empty().push(p));
        assert(s =~= Seq::<TrackPoint>::empty());
        assert(forall|x: TrackPoint| s.to_multiset().count(x) == 0) by {
            assert(forall|x: TrackPoint| !s.contains(x));
        }
        assert(s.to_multiset() =~= Multiset::<TrackPoint>::empty());
        assert(seq![p].to_multiset() =~= s.to_multiset().insert(p));
    } else if p.time < s.last().time {
        lemma_insert_multiset(s.drop_last(), p);
        assert(s =~= s.drop_last().push(s.last()));
        assert(insert_by_time(s, p).to_multiset() =~= s.drop_last().to_multiset().insert(p).insert(
            s.last(),
        ));
        assert(s.to_multiset() =~= s.drop_last().to_multiset().insert(s.last()));
        assert(s.drop_last().to_multiset().insert(p).insert(s.last())
            =~= s.drop_last().to_multiset().insert(s.last()).insert(p));
    } else {
    }
}

/// Sorting a segment reorders its points but keeps exactly the same
/// point values.
pub proof fn lemma_sort_permutes(s: Seq<TrackPoint>)
    ensures
        sort_by_time_s(s).to_multiset() == s.to_multiset(),
    decreases s.len(),
{
    broadcast use vstd::seq_lib::group_to_multiset_ensures;

    if s.len() == 0 {
    } else {
        lemma_sort_permutes(s.drop_last());
        lemma_insert_multiset(sort_by_time_s(s.drop_last()), s.last());
        assert(s =~= s.drop_last().push(s.last()));
        assert(s.to_multiset() =~= s.drop_last().to_multiset().insert(s.last()));
    }
}

proof fn lemma_insert_at(s: Seq<TrackPoint>, p: TrackPoint, j: int)
    requires
        0 <= j <= s.len(),
        forall|l: int| j <= l < s.len() ==> #[trigger] s[l].time > p.time,
        j > 0 ==> s[j - 1].time <= p.time,
    ensures
        insert_by_time(s, p) == s.insert(j, p),
    decreases s.len() - j,
{
    if j == s.len() {
        if s.len() == 0 {
            assert(s.insert(0, p) =~= seq![p]);
        } else {
            assert(s.last().time <= p.time);
            assert(s.insert(j, p) =~= s.push(p));
        }
    } else {
        assert(s[s.len() - 1].time > p.time);
        assert(forall|l: int|
            j <= l < s.drop_last().len() ==> s.drop_last()[l] == #[trigger] s[l]);
        if j > 0 {
            assert(s.drop_last()[j - 1] == s[j - 1]);
        }
        lemma_insert_at(s.drop_last(), p, j);
        assert(insert_by_time(s, p) == s.drop_last().insert(j, p).push(s.last()));
        assert(s.drop_last().insert(j, p).push(s.last()) =~= s.insert(j, p));
    }
}

fn insert_point(out: &mut Vec<TrackPoint>, p: TrackPoint)
    ensures
        final(out)@ == insert_by_time(old(out)@, p),
{
    let mut j: usize = out.len();
    while j > 0 && out[j - 1].time > p.time
        invariant
            j <= out.len(),
            out@ == old(out)@,
            forall|l: int| j <= l < out@.len() ==> #[trigger] out@[l].time > p.time,
        decreases j,
    {
        j = j - 1;
    }
    proof {
        lemma_insert_at(out@, p, j as int);
    }
    out.insert(j, p);
}

/// Sorts the points of a finished segment stably by ascending timestamp.
fn sort_points(v: Vec<TrackPoint>) -> (r: Vec<TrackPoint>)
    ensures
        r@ == sort_by_time_s(v@),
{
    let mut out: Vec<TrackPoint> = Vec::new();
    proof {
        assert(v@.subrange(0, 0) =~= Seq::<TrackPoint>::empty());
    }
    let mut i: usize = 0;
    while i < v.len()
        invariant
            i <= v.len(),
            out@ == sort_by_time_s(v@.subrange(0, i as int)),
        decreases v.len() - i,
    {
        insert_point(&mut out, v[i]);
        proof {
            assert(v@.subrange(0, i + 1).drop_last() =~= v@.subrange(0, i as int));
            assert(v@.subrange(0, i + 1).last() == v@[i as int]);
        }
        i = i + 1;
    }
    proof {
        assert(v@.subrange(0, v@.len() as int) =~= v@);
    }
    out
}

/// The machine state of the fold, viewed by [`parser_view`].
struct Parser {
    in_gpx: bool,
    in_metadata: bool,
    in_track: bool,
    in_segment: bool,
    in_point: bool,
    current_tag: Option<GpxXmlTag>,
    point: TrackPoint,
    should_sort: bool,
    current: Vec<TrackPoint>,
    name: String,
    start_time: Option<i64>,
    segs: Vec<TrackSegment>,
}

spec fn parser_view(p: Parser) -> ParserV {
    ParserV {
        in_gpx: p.in_gpx,
        in_metadata: p.in_metadata,
        in_track: p.in_track,
        in_segment: p.in_segment,
        in_point: p.in_point,
        current_tag: p.current_tag,
        point: p.point,
        should_sort: p.should_sort,
        current: p.current@,
        name: p.name@,
        start_time: p.start_time,
        segs: p.segs@.map_values(|s: TrackSegment| s@),
    }
}

proof fn lemma_scan_attrs_none(attrs: Seq<AttrV>, k: int, m: int)
    requires
        0 <= k <= m,
        scan_attrs_s(attrs, k) is None,
    ensures
        scan_attrs_s(attrs, m) is None,
    decreases m - k,
{
    if k < m {
        lemma_scan_attrs_none(attrs, k + 1, m);
    }
}

fn scan_attrs(attributes: &Vec<Attr>) -> (r: Option<(Option<i64>, Option<i64>)>)
    ensures
        r == scan_attrs_s(
            attributes@.map_values(|a: Attr| attr_view(a)),
            attributes@.len() as int,
        ),
{
    let ghost av = attributes@.map_values(|a: Attr| attr_view(a));
    let mut la: Option<i64> = None;
    let mut lo: Option<i64> = None;
    let mut k: usize = 0;
    while k < attributes.len()
        invariant
            k <= attributes.len(),
            av == attributes@.map_values(|a: Attr| attr_view(a)),
            av.len() == attributes@.len(),
            scan_attrs_s(av, k as int) == Option::Some((la, lo)),
        decreases attributes.len() - k,
    {
        let a = &attributes[k];
        proof {
            assert(av[k as int] == attr_view(attributes@[k as int]));
        }
        if str_eq_lit(&a.name, "lat") {
            match parse_decimal(a.value.as_str(), 9) {
                None => {
                    proof {
                        lemma_scan_attrs_none(av, k + 1, av.len() as int);
                    }
                    return None;
                },
                Some(v) => {
                    la = Some(v);
                },
            }
        } else if str_eq_lit(&a.name, "lon") {
            match parse_decimal(a.value.as_str(), 9) {
                None => {
                    proof {
                        lemma_scan_attrs_none(av, k + 1, av.len() as int);
                    }
                    return None;
                },
                Some(v) => {
                    lo = Some(v);
                },
            }
        }
        k = k + 1;
    }
    Some((la, lo))
}

fn start_tag(ctx: &mut Parser, tag: GpxXmlTag, attributes: &Vec<Attr>) -> (r: Result<
    (),
    ParseError,
>)
    ensures
        match start_tag_s(
            parser_view(*old(ctx)),
            tag,
            attributes@.map_values(|a: Attr| attr_view(a)),
        ) {
            Result::Ok(st2) => r is Ok && parser_view(*final(ctx)) == st2,
            Result::Err(e) => r == Result::<(), ParseError>::Err(e),
        },
{
    ctx.current_tag = Some(tag);
    match tag {
        GpxXmlTag::Gpx => {
            ctx.in_gpx = true;
            Ok(())
        },
        GpxXmlTag::Metadata => {
            if !ctx.in_gpx {
                Err(ParseError::StructureError)
            } else {
                ctx.in_metadata = true;
                Ok(())
            }
        },
        GpxXmlTag::Time => {
            if !ctx.in_gpx {
                Err(ParseError::StructureError)
            } else {
                Ok(())
            }
        },
        GpxXmlTag::Track => {
            ctx.in_track = true;
            Ok(())
        },
        GpxXmlTag::Name => {
            if !ctx.in_gpx || !ctx.in_track {
                Err(ParseError::StructureError)
            } else {
                Ok(())
            }
        },
        GpxXmlTag::TrackSegment => {
            ctx.in_segment = true;
            ctx.current = Vec::new();
            ctx.should_sort = false;
            Ok(())
        },
        GpxXmlTag::TrackPoint => {
            if !ctx.in_gpx || !ctx.in_track || !ctx.in_segment {
                Err(ParseError::StructureError)
            } else {
                match scan_attrs(attributes) {
                    None => Err(ParseError::AttributeError),
                    Some((la, lo)) => {
                        match (la, lo) {
                            (Some(lat), Some(lon)) => {
                                ctx.in_point = true;
                                ctx.point = TrackPoint {
                                    latitude: lat,
                                    longitude: lon,
                                    elevation: 0,
                                    time: 0,
                                    heart_rate: 0,
                                    cadence: 0,
                                };
                                Ok(())
                            },
                            _ => Err(ParseError::AttributeError),
                        }
                    },
                }
            }
        },
        GpxXmlTag::Elevation => {
            if !ctx.in_point {
                Err(ParseError::StructureError)
            } else {
                Ok(())
            }
        },
        GpxXmlTag::ExtHeartRate => {
            if !ctx.in_point {
                Err(ParseError::StructureError)
            } else {
                Ok(())
            }
        },
        GpxXmlTag::ExtCadence => {
            if !ctx.in_point {
                Err(ParseError::StructureError)
            } else {
                Ok(())
            }
        },
    }
}

fn text_event(ctx: &mut Parser, content: &String) -> (r: Result<(), ParseError>)
    ensures
        match text_s(parser_view(*old(ctx)), content@) {
            Result::Ok(st2) => r is Ok && parser_view(*final(ctx)) == st2,
            Result::Err(e) => r == Result::<(), ParseError>::Err(e),
        },
{
    match ctx.current_tag {
        None => Ok(()),
        Some(tag) => match tag {
            GpxXmlTag::Time => {
                match parse_rfc3339_millis(content.as_str()) {
                    None => Err(ParseError::TimeFormatError),
                    Some(ms) => {
                        if ctx.in_metadata {
                            ctx.start_time = Some(ms);
                        } else if ctx.in_point {
                            ctx.point.time = ms;
                        }
                        Ok(())
                    },
                }
            },
            GpxXmlTag::Name => {
                ctx.name = content.clone();
                Ok(())
            },
            GpxXmlTag::Elevation => {
                match parse_decimal(content.as_str(), 3) {
                    None => Err(ParseError::ValueError),
                    Some(v) => {
                        ctx.point.elevation = v;
                        Ok(())
                    },
                }
            },
            GpxXmlTag::ExtHeartRate => {
                match parse_u8_text(content.as_str()) {
                    None => Err(ParseError::ValueError),
                    Some(v) => {
                        ctx.point.heart_rate = v;
                        Ok(())
                    },
                }
            },
            GpxXmlTag::ExtCadence => {
                match parse_u8_text(content.as_str()) {
                    None => Err(ParseError::ValueError),
                    Some(v) => {
                        ctx.point.cadence = v;
                        Ok(())
                    },
                }
            },
            _ => Ok(()),
        },
    }
}

fn end_tag(ctx: &mut Parser, tag: GpxXmlTag)
    ensures
        parser_view(*final(ctx)) == end_tag_s(parser_view(*old(ctx)), tag),
{
    ctx.current_tag = None;
    match tag {
        GpxXmlTag::Gpx => {
            ctx.in_gpx = false;
        },
        GpxXmlTag::Metadata => {
            ctx.in_metadata = false;
        },
        GpxXmlTag::Track => {
            ctx.in_track = false;
        },
        GpxXmlTag::TrackSegment => {
            ctx.in_segment = false;
            proof {
                assert(ctx.current@.subrange(0, ctx.current@.len() as int) =~= ctx.current@);
                assert(ctx.current@.subrange(0, 0) =~= Seq::<TrackPoint>::empty());
            }
            let pts = ctx.current.split_off(0);
            let seg_pts = if ctx.should_sort {
                sort_points(pts)
            } else {
                pts
            };
            ctx.segs.push(TrackSegment { points: seg_pts });
            ctx.should_sort = false;
            proof {
                assert(parser_view(*ctx).segs =~= end_tag_s(parser_view(*old(ctx)), tag).segs);
                assert(parser_view(*ctx).current =~= end_tag_s(parser_view(*old(ctx)), tag).current);
                assert(parser_view(*ctx) =~= end_tag_s(parser_view(*old(ctx)), tag));
            }
        },
        GpxXmlTag::TrackPoint => {
            if ctx.current.len() > 0 {
                if ctx.current[ctx.current.len() - 1].time > ctx.point.time {
                    ctx.should_sort = true;
                }
            }
            ctx.in_point = false;
            ctx.current.push(ctx.point);
        },
        _ => {},
    }
}

fn step(ctx: &mut Parser, ev: &RawEvent) -> (r: Result<(), ParseError>)
    ensures
        match step_s(parser_view(*old(ctx)), event_view(*ev)) {
            Result::Ok(st2) => r is Ok && parser_view(*final(ctx)) == st2,
            Result::Err(e) => r == Result::<(), ParseError>::Err(e),
        },
{
    match ev {
        RawEvent::Start { namespace, local, attributes } => {
            match parse_gpx_xml_tag(namespace, local) {
                None => Ok(()),
                Some(tag) => start_tag(ctx, tag, attributes),
            }
        },
        RawEvent::End { namespace, local } => {
            match parse_gpx_xml_tag(namespace, local) {
                None => Ok(()),
                Some(tag) => {
                    end_tag(ctx, tag);
                    Ok(())
                },
            }
        },
        RawEvent::Text { content } => text_event(ctx, content),
    }
}

/// The parser's segment buffers stay sorted unless flagged for sorting.
pub open spec fn st_inv(st: ParserV) -> bool {
    &&& forall|k: int| 0 <= k < st.segs.len() ==> sorted_by_time(#[trigger] st.segs[k])
    &&& (!st.should_sort ==> sorted_by_time(st.current))
}

proof fn lemma_step_inv(st: ParserV, ev: EventV)
    requires
        st_inv(st),
    ensures
        step_s(st, ev) matches Ok(st2) ==> st_inv(st2),
{
    match step_s(st, ev) {
      Result::Err(_) => {},
      Result::Ok(st2) => {
        match ev {
            EventV::Start { namespace, local, attributes } => {
                assert(sorted_by_time(Seq::<TrackPoint>::empty()));
            },
            EventV::End { namespace, local } => {
                match tag_of_v(namespace, local) {
                    Option::None => {},
                    Option::Some(tag) => {
                        match tag {
                            GpxXmlTag::TrackSegment => {
                                if st.should_sort {
                                    lemma_sort_sorted(st.current);
                                }
                                assert(sorted_by_time(finished_segment(st)));
                                assert(sorted_by_time(Seq::<TrackPoint>::empty()));
                                assert(forall|k: int|
                                    0 <= k < st.segs.len() ==> st2.segs[k] == #[trigger] st.segs[k]);
                                assert(st2.segs.last() == finished_segment(st));
                            },
                            GpxXmlTag::TrackPoint => {
                                if !st2.should_sort {
                                    lemma_sorted_push(st.current, st.point);
                                }
                            },
                            _ => {},
                        }
                    },
                }
            },
            EventV::Text { content } => {},
        }
      },
    }
}

proof fn lemma_events_inv(evs: Seq<EventV>, k: int)
    ensures
        parse_events_s(evs, k) matches Ok(st) ==> st_inv(st),
    decreases k,
{
    if k <= 0 {
    } else {
        lemma_events_inv(evs, k - 1);
        match parse_events_s(evs, k - 1) {
            Result::Ok(st) => {
                lemma_step_inv(st, evs[k - 1]);
            },
            Result::Err(_) => {},
        }
    }
}

/// Whatever order points arrive in, every segment of a parsed track is
/// in non-decreasing time order.
pub proof fn lemma_parse_track_sorted(evs: Seq<EventV>)
    ensures
        parse_track_s(evs) matches Ok(tv) ==> forall|k: int|
            0 <= k < tv.route.len() ==> sorted_by_time(#[trigger] tv.route[k]),
{
    lemma_events_inv(evs, evs.len() as int);
    match parse_events_s(evs, evs.len() as int) {
        Result::Err(_) => {},
        Result::Ok(st) => {
            if st.in_segment {
                if st.should_sort {
                    lemma_sort_sorted(st.current);
                }
                assert(sorted_by_time(finished_segment(st)));
                let segs = st.segs.push(finished_segment(st));
                assert(forall|k: int| 0 <= k < st.segs.len() ==> segs[k] == #[trigger] st.segs[k]);
                assert(segs.last() == finished_segment(st));
            }
        },
    }
}

proof fn lemma_parse_events_err(evs: Seq<EventV>, k: int, m: int)
    requires
        0 <= k <= m,
        parse_events_s(evs, k) is Err,
    ensures
        parse_events_s(evs, m) == parse_events_s(evs, k),
    decreases m - k,
{
    if k < m {
        lemma_parse_events_err(evs, k + 1, m);
    }
}

/// Folds an event stream into a track, exactly as [`parse_track_s`]
/// states; a returned track is well formed.
#[verifier::loop_isolation(false)]
pub fn parse_track(events: &Vec<RawEvent>) -> (r: Result<Track, ParseError>)
    ensures
        result_matches(r, parse_track_s(events_view(events@))),
        r matches Ok(t) ==> t.wf(),
{
    let ghost evs = events_view(events@);
    let mut ctx = Parser {
        in_gpx: false,
        in_metadata: false,
        in_track: false,
        in_segment: false,
        in_point: false,
        current_tag: None,
        point: TrackPoint::new(),
        should_sort: false,
        current: Vec::new(),
        name: String::new(),
        start_time: None,
        segs: Vec::new(),
    };
    proof {
        assert(parser_view(ctx) =~= parser_init());
    }
    let mut idx: usize = 0;
    while idx < events.len()
        invariant
            idx <= events.len(),
            parse_events_s(evs, idx as int) == Result::<ParserV, ParseError>::Ok(parser_view(ctx)),
        decreases events.len() - idx,
    {
        proof {
            assert(evs[idx as int] == event_view(events@[idx as int]));
        }
        let res = step(&mut ctx, &events[idx]);
        match res {
            Err(e) => {
                proof {
                    assert(parse_events_s(evs, idx + 1) == Result::<ParserV, ParseError>::Err(e));
                    lemma_parse_events_err(evs, idx + 1, evs.len() as int);
                }
                return Err(e);
            },
            Ok(_) => {},
        }
        idx = idx + 1;
    }
    let mut segs = ctx.segs;
    if ctx.in_segment {
        let pts = if ctx.should_sort {
            sort_points(ctx.current)
        } else {
            ctx.current
        };
        segs.push(TrackSegment { points: pts });
    }
    let t = Track { name: ctx.name, start_time: ctx.start_time, route: segs };
    proof {
        let st = parse_track_s(evs)->Ok_0;
        assert(t@ =~= st) by {
            assert(t@.route =~= st.route);
        }
        lemma_parse_track_sorted(evs);
    }
    Ok(t)
}

/// Parses a GPX document from its bytes: the xml crate yields the event
/// stream, and the verified fold builds the track.  A document that is
/// not well formed fails with `XmlError`; a returned track is well
/// formed.
pub fn read_gpx(data: &[u8]) -> (r: Result<Track, ParseError>)
    ensures
        read_gpx_post(data@, r),
        r matches Ok(t) ==> t.wf(),
{
    match xml_events(data) {
        Err(_) => Err(ParseError::XmlError),
        Ok(v) => parse_track(&v),
    }
}

/// Parsing the same document twice yields two equal results — equal
/// tracks on success, the same error otherwise — and hence identical
/// derived statistics.
pub proof fn lemma_parse_idempotent(
    data: Seq<u8>,
    r1: Result<Track, ParseError>,
    r2: Result<Track, ParseError>,
)
    requires
        read_gpx_post(data, r1),
        read_gpx_post(data, r2),
    ensures
        r1 is Ok <==> r2 is Ok,
        r1 matches Ok(t1) ==> r2 matches Ok(t2) ==> t1@ == t2@
            && crate::stats::track_distance_s(t1@.route) == crate::stats::track_distance_s(
            t2@.route,
        ) && crate::stats::track_duration_s(t1@.route) == crate::stats::track_duration_s(t2@.route)
            && crate::stats::track_avg_hr_s(t1@.route) == crate::stats::track_avg_hr_s(t2@.route)
            && crate::stats::track_splits_s(t1@.route) == crate::stats::track_splits_s(t2@.route)
            && crate::stats::track_elevation_s(t1@.route) == crate::stats::track_elevation_s(
            t2@.route,
        ),
        r1 matches Err(e1) ==> r2 matches Err(e2) ==> e1 == e2,
{
}

} // verus!
