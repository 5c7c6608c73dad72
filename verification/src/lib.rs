//! Running-activity statistics over GPS tracks.
//!
//! A track is parsed from a stream of structural document events into an
//! ordered collection of segments of time-stamped points, and a statistics
//! engine derives distance, duration, heart-rate, split and elevation
//! figures from it.
//!
//! All quantities are fixed-point integers: coordinates in nanodegrees,
//! elevations in millimetres, instants in milliseconds since the Unix epoch.
use vstd::prelude::*;

pub mod decimal;
pub mod formatter;
pub mod geom;
pub mod gpx_parser;
pub mod stats;
pub mod trig;

pub use gpx_parser::read_gpx;

verus! {

/// One recorded sample.
///
/// `latitude` and `longitude` are in nanodegrees (degrees times 10^9),
/// `elevation` in millimetres, `time` in milliseconds since the Unix epoch.
/// A `heart_rate` or `cadence` of 0 means that the value is absent.
#[derive(Debug, Copy, Clone, PartialEq, Eq, Structural)]
pub struct TrackPoint {
    pub latitude: i64,
    pub longitude: i64,
    pub elevation: i64,
    pub time: i64,
    pub heart_rate: u8,
    pub cadence: u8,
}

impl TrackPoint {
    pub fn new() -> (p: TrackPoint)
        ensures
            p == (TrackPoint {
                latitude: 0,
                longitude: 0,
                elevation: 0,
                time: 0,
                heart_rate: 0,
                cadence: 0,
            }),
    {
        TrackPoint { latitude: 0, longitude: 0, elevation: 0, time: 0, heart_rate: 0, cadence: 0 }
    }

    pub fn from_coordinates(latitude: i64, longitude: i64) -> (p: TrackPoint)
        ensures
            p == (TrackPoint { latitude, longitude, elevation: 0, time: 0, heart_rate: 0, cadence: 0 }),
    {
        TrackPoint { latitude, longitude, elevation: 0, time: 0, heart_rate: 0, cadence: 0 }
    }
}

/// One continuous recording run: an ordered sequence of points.
#[derive(Debug)]
pub struct TrackSegment {
    pub points: Vec<TrackPoint>,
}

impl View for TrackSegment {
    type V = Seq<TrackPoint>;

    open spec fn view(&self) -> Seq<TrackPoint> {
        self.points@
    }
}

impl TrackSegment {
    pub fn new() -> (s: TrackSegment)
        ensures
            s@ == Seq::<TrackPoint>::empty(),
    {
        TrackSegment { points: Vec::new() }
    }
}

/// The abstract value of a [`Track`].
#[verifier::ext_equal]
pub struct TrackView {
    pub name: Seq<char>,
    pub start_time: Option<i64>,
    pub route: Seq<Seq<TrackPoint>>,
}

/// One recorded activity: a name, an optional creation instant from the
/// document metadata (milliseconds since the Unix epoch), and the segments.
#[derive(Debug)]
pub struct Track {
    pub name: String,
    pub start_time: Option<i64>,
    pub route: Vec<TrackSegment>,
}

impl View for Track {
    type V = TrackView;

    open spec fn view(&self) -> TrackView {
        TrackView {
            name: self.name@,
            start_time: self.start_time,
            route: self.route@.map_values(|s: TrackSegment| s@),
        }
    }
}

/// True when the points of `s` are in non-decreasing time order.
pub open spec fn sorted_by_time(s: Seq<TrackPoint>) -> bool {
    forall|i: int, j: int| 0 <= i <= j < s.len() ==> #[trigger] s[i].time <= #[trigger] s[j].time
}

impl Track {
    pub fn new() -> (t: Track)
        ensures
            t@.name == Seq::<char>::empty(),
            t@.start_time is None,
            t@.route == Seq::<Seq<TrackPoint>>::empty(),
    {
        let t = Track { name: String::new(), start_time: None, route: Vec::new() };
        proof {
            assert(t@.route =~= Seq::<Seq<TrackPoint>>::empty());
        }
        t
    }

    /// Every segment is in non-decreasing time order; the parser
    /// establishes this, and the time-based statistics rely on it.
    pub open spec fn wf(self) -> bool {
        forall|k: int| 0 <= k < self@.route.len() ==> sorted_by_time(#[trigger] self@.route[k])
    }

    /// Total distance of the track in metres.
    pub fn distance(&self) -> (d: u64)
        ensures
            d as int == crate::stats::track_distance_s(self@.route),
    {
        crate::stats::calc_track_distance(self)
    }

    /// Total duration of the track in milliseconds.
    pub fn duration(&self) -> (d: u64)
        requires
            self.wf(),
        ensures
            d as int == crate::stats::track_duration_s(self@.route),
    {
        crate::stats::calc_track_duration(self)
    }

    /// Time-weighted average heart rate of the track, in beats per minute.
    pub fn avg_heart_rate(&self) -> (hr: u8)
        requires
            self.wf(),
        ensures
            hr as int == crate::stats::track_avg_hr_s(self@.route),
    {
        crate::stats::calc_track_average_heart_rate(self)
    }

    /// Per-kilometre splits of the track.
    pub fn splits(&self) -> (s: Vec<Split>)
        requires
            self.wf(),
        ensures
            s@ == crate::stats::track_splits_s(self@.route),
    {
        crate::stats::calc_track_splits(self)
    }

    /// Elevation summary of the track.
    pub fn elevation_stats(&self) -> (r: ElevationStats)
        ensures
            r.max_elevation == crate::stats::track_elevation_s(self@.route).0,
            r.min_elevation == crate::stats::track_elevation_s(self@.route).1,
            r.gain as int == crate::stats::track_elevation_s(self@.route).2,
    {
        crate::stats::calc_track_elevation_stats(self)
    }
}

/// One nominally-one-kilometre slice of a track: the distance it covers in
/// metres, the seconds taken to cover it, and the signed elevation change
/// in metres from its start to its end.
#[derive(Debug, Copy, Clone, PartialEq, Eq, Structural)]
pub struct Split {
    pub distance: u16,
    pub pace: u64,
    pub elevation_delta: i32,
}

/// Elevation summary of a track, in millimetres.  `max_elevation` and
/// `min_elevation` are `None` for a track without points; `gain` adds up
/// the positive elevation changes between consecutive points of a segment.
#[derive(Debug, PartialEq, Eq)]
pub struct ElevationStats {
    pub max_elevation: Option<i64>,
    pub min_elevation: Option<i64>,
    pub gain: u64,
}

/// Why parsing a document failed.
#[derive(Debug, Copy, Clone, PartialEq, Eq, Structural)]
pub enum ParseError {
    /// The document itself is not well formed.
    XmlError,
    /// A recognized tag appeared in an invalid containment context.
    StructureError,
    /// A required attribute is missing or does not parse.
    AttributeError,
    /// Element text does not parse as its expected numeric type.
    ValueError,
    /// A timestamp is not in the expected format.
    TimeFormatError,
}

} // verus!
