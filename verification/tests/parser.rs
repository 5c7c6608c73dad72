use runstats::gpx_parser::{parse_gpx_xml_tag, GpxXmlTag};
use runstats::{read_gpx, ParseError};

const GPX_HEADER: &str = "<?xml version=\"1.0\" encoding=\"UTF-8\"?>
<gpx creator=\"StravaGPX\" xmlns:xsi=\"http://www.w3.org/2001/XMLSchema-instance\"
version=\"1.1\"
xmlns=\"http://www.topografix.com/GPX/1/1\"
xmlns:gpxtpx=\"http://www.garmin.com/xmlschemas/TrackPointExtension/v1\"
xmlns:gpxx=\"http://www.garmin.com/xmlschemas/GpxExtensions/v3\">";

#[test]
fn test_unknown_namespace_gpx_mapping() {
    let parsed = parse_gpx_xml_tag(&Some(String::from("")), &String::from("gpx"));
    assert_eq!(parsed, None);
}

#[test]
fn test_unknown_tag_gpx_mapping() {
    let parsed = parse_gpx_xml_tag(
        &Some(String::from("http://www.topografix.com/GPX/1/1")),
        &String::from("unknown"),
    );
    assert_eq!(parsed, None);
}

#[test]
fn topografix_gpx_mapping() {
    let ns = Some(String::from("http://www.topografix.com/GPX/1/1"));
    assert_eq!(parse_gpx_xml_tag(&ns, &String::from("gpx")), Some(GpxXmlTag::Gpx));
    assert_eq!(parse_gpx_xml_tag(&ns, &String::from("metadata")), Some(GpxXmlTag::Metadata));
    assert_eq!(parse_gpx_xml_tag(&ns, &String::from("trk")), Some(GpxXmlTag::Track));
    assert_eq!(parse_gpx_xml_tag(&ns, &String::from("name")), Some(GpxXmlTag::Name));
    assert_eq!(parse_gpx_xml_tag(&ns, &String::from("trkseg")), Some(GpxXmlTag::TrackSegment));
    assert_eq!(parse_gpx_xml_tag(&ns, &String::from("trkpt")), Some(GpxXmlTag::TrackPoint));
    assert_eq!(parse_gpx_xml_tag(&ns, &String::from("ele")), Some(GpxXmlTag::Elevation));
    assert_eq!(parse_gpx_xml_tag(&ns, &String::from("time")), Some(GpxXmlTag::Time));
}

#[test]
fn garmin_track_point_ext_gpx_mapping() {
    let ns = Some(String::from("http://www.garmin.com/xmlschemas/TrackPointExtension/v1"));
    assert_eq!(parse_gpx_xml_tag(&ns, &String::from("hr")), Some(GpxXmlTag::ExtHeartRate));
    assert_eq!(parse_gpx_xml_tag(&ns, &String::from("cad")), Some(GpxXmlTag::ExtCadence));
}

#[test]
fn test_parsing_simple_gpx() {
    let gpx_str = format!("{}\n</gpx>", GPX_HEADER);
    let result = read_gpx(gpx_str.as_bytes());
    assert!(result.is_ok());
    let track = result.unwrap();
    assert_eq!(track.name, "");
    assert_eq!(track.start_time, None);
    assert_eq!(track.route.len(), 0);
}

#[test]
fn test_parsing_metadata_gpx() {
    let gpx_str = format!(
        "{}
    <metadata>
        <time>2020-04-22T16:01:58Z</time>
    </metadata>
</gpx>",
        GPX_HEADER
    );
    let result = read_gpx(gpx_str.as_bytes());
    assert!(result.is_ok());
    let track = result.unwrap();
    assert_eq!(track.name, "");
    assert_eq!(track.route.len(), 0);
    assert_eq!(track.start_time, Some(1_587_571_318_000));
}

const GPX_TRACK_BODY: &str = "    <metadata>
        <time>2020-04-22T16:01:58Z</time>
    </metadata>
    <trk>
        <name>Test run</name>
        <type>9</type>
        <trkseg>
            <trkpt lat=\"10.1025420\" lon=\"15.1583540\">
                <ele>478.2</ele>
                <time>2020-04-22T16:01:58Z</time>
                <extensions>
                    <gpxtpx:TrackPointExtension>
                        <gpxtpx:hr>95</gpxtpx:hr>
                        <gpxtpx:cad>79</gpxtpx:cad>
                    </gpxtpx:TrackPointExtension>
                </extensions>
            </trkpt>
            <trkpt lat=\"10.1025432\" lon=\"15.1583542\">
                <ele>480.3</ele>
                <time>2020-04-22T16:02:04Z</time>
                <extensions>
                    <gpxtpx:TrackPointExtension>
                        <gpxtpx:hr>98</gpxtpx:hr>
                        <gpxtpx:cad>80</gpxtpx:cad>
                    </gpxtpx:TrackPointExtension>
                </extensions>
            </trkpt>
        </trkseg>
    </trk>
</gpx>";

#[test]
fn test_parsing_gpx() {
    let gpx_str = format!("{}\n{}", GPX_HEADER, GPX_TRACK_BODY);
    let result = read_gpx(gpx_str.as_bytes());
    assert!(result.is_ok());
    let track = result.unwrap();
    assert_eq!(track.name, "Test run");
    assert_eq!(track.start_time, Some(1_587_571_318_000));
    assert_eq!(track.route.len(), 1);
    let points = &track.route[0].points;
    assert_eq!(points.len(), 2);

    assert_eq!(points[0].latitude, 10_102_542_000);
    assert_eq!(points[0].longitude, 15_158_354_000);
    assert_eq!(points[0].elevation, 478_200);
    assert_eq!(points[0].time, 1_587_571_318_000);
    assert_eq!(points[0].heart_rate, 95);
    assert_eq!(points[0].cadence, 79);

    assert_eq!(points[1].latitude, 10_102_543_200);
    assert_eq!(points[1].longitude, 15_158_354_200);
    assert_eq!(points[1].elevation, 480_300);
    assert_eq!(points[1].time, 1_587_571_324_000);
    assert_eq!(points[1].heart_rate, 98);
    assert_eq!(points[1].cadence, 80);
}

#[test]
fn test_parsing_gpx_with_invalid_point_order() {
    // The same two points as the forward document, later one first.
    let gpx_str = format!(
        "{}
    <metadata>
        <time>2020-04-22T16:01:58Z</time>
    </metadata>
    <trk>
        <name>Test run</name>
        <type>9</type>
        <trkseg>
            <trkpt lat=\"10.1025432\" lon=\"15.1583542\">
                <ele>480.3</ele>
                <time>2020-04-22T16:02:04Z</time>
                <extensions>
                    <gpxtpx:TrackPointExtension>
                        <gpxtpx:hr>98</gpxtpx:hr>
                        <gpxtpx:cad>80</gpxtpx:cad>
                    </gpxtpx:TrackPointExtension>
                </extensions>
            </trkpt>
            <trkpt lat=\"10.1025420\" lon=\"15.1583540\">
                <ele>478.2</ele>
                <time>2020-04-22T16:01:58Z</time>
                <extensions>
                    <gpxtpx:TrackPointExtension>
                        <gpxtpx:hr>95</gpxtpx:hr>
                        <gpxtpx:cad>79</gpxtpx:cad>
                    </gpxtpx:TrackPointExtension>
                </extensions>
            </trkpt>
        </trkseg>
    </trk>
</gpx>",
        GPX_HEADER
    );
    let result = read_gpx(gpx_str.as_bytes());
    assert!(result.is_ok());
    let track = result.unwrap();
    assert_eq!(track.name, "Test run");
    assert_eq!(track.start_time, Some(1_587_571_318_000));
    assert_eq!(track.route.len(), 1);
    let points = &track.route[0].points;
    assert_eq!(points.len(), 2);

    assert_eq!(points[0].latitude, 10_102_542_000);
    assert_eq!(points[0].longitude, 15_158_354_000);
    assert_eq!(points[0].elevation, 478_200);
    assert_eq!(points[0].time, 1_587_571_318_000);
    assert_eq!(points[0].heart_rate, 95);
    assert_eq!(points[0].cadence, 79);

    assert_eq!(points[1].latitude, 10_102_543_200);
    assert_eq!(points[1].longitude, 15_158_354_200);
    assert_eq!(points[1].elevation, 480_300);
    assert_eq!(points[1].time, 1_587_571_324_000);
    assert_eq!(points[1].heart_rate, 98);
    assert_eq!(points[1].cadence, 80);
}

#[test]
fn parsing_twice_gives_identical_statistics() {
    let gpx_str = format!("{}\n{}", GPX_HEADER, GPX_TRACK_BODY);
    let t1 = read_gpx(gpx_str.as_bytes()).unwrap();
    let t2 = read_gpx(gpx_str.as_bytes()).unwrap();
    assert_eq!(t1.name, t2.name);
    assert_eq!(t1.start_time, t2.start_time);
    assert_eq!(t1.distance(), t2.distance());
    assert_eq!(t1.duration(), t2.duration());
    assert_eq!(t1.avg_heart_rate(), t2.avg_heart_rate());
    assert_eq!(t1.splits(), t2.splits());
    assert_eq!(t1.elevation_stats(), t2.elevation_stats());
}

#[test]
fn point_without_longitude_is_an_attribute_error() {
    let gpx_str = format!(
        "{}<trk><trkseg><trkpt lat=\"1.0\"><ele>1.0</ele></trkpt></trkseg></trk></gpx>",
        GPX_HEADER
    );
    assert!(matches!(read_gpx(gpx_str.as_bytes()), Err(ParseError::AttributeError)));
}

#[test]
fn point_with_unreadable_latitude_is_an_attribute_error() {
    let gpx_str = format!(
        "{}<trk><trkseg><trkpt lat=\"abc\" lon=\"2.0\"></trkpt></trkseg></trk></gpx>",
        GPX_HEADER
    );
    assert!(matches!(read_gpx(gpx_str.as_bytes()), Err(ParseError::AttributeError)));
}

#[test]
fn unreadable_elevation_is_a_value_error() {
    let gpx_str = format!(
        "{}<trk><trkseg><trkpt lat=\"1.0\" lon=\"2.0\"><ele>abc</ele></trkpt></trkseg></trk></gpx>",
        GPX_HEADER
    );
    assert!(matches!(read_gpx(gpx_str.as_bytes()), Err(ParseError::ValueError)));
}

#[test]
fn out_of_range_heart_rate_is_a_value_error() {
    let gpx_str = format!(
        "{}<trk><trkseg><trkpt lat=\"1.0\" lon=\"2.0\"><extensions><gpxtpx:TrackPointExtension><gpxtpx:hr>300</gpxtpx:hr></gpxtpx:TrackPointExtension></extensions></trkpt></trkseg></trk></gpx>",
        GPX_HEADER
    );
    assert!(matches!(read_gpx(gpx_str.as_bytes()), Err(ParseError::ValueError)));
}

#[test]
fn unreadable_timestamp_is_a_time_format_error() {
    let gpx_str = format!(
        "{}<metadata><time>yesterday</time></metadata></gpx>",
        GPX_HEADER
    );
    assert!(matches!(read_gpx(gpx_str.as_bytes()), Err(ParseError::TimeFormatError)));
}

#[test]
fn point_outside_a_segment_is_a_structure_error() {
    let gpx_str = format!(
        "{}<trk><trkpt lat=\"1.0\" lon=\"2.0\"></trkpt></trk></gpx>",
        GPX_HEADER
    );
    assert!(matches!(read_gpx(gpx_str.as_bytes()), Err(ParseError::StructureError)));
}

#[test]
fn metadata_outside_gpx_is_a_structure_error() {
    let gpx_str = "<?xml version=\"1.0\" encoding=\"UTF-8\"?>\n<metadata xmlns=\"http://www.topografix.com/GPX/1/1\"></metadata>";
    assert!(matches!(read_gpx(gpx_str.as_bytes()), Err(ParseError::StructureError)));
}

#[test]
fn malformed_document_is_an_xml_error() {
    let gpx_str = "<gpx xmlns=\"http://www.topografix.com/GPX/1/1\"><trk></gpx>";
    assert!(matches!(read_gpx(gpx_str.as_bytes()), Err(ParseError::XmlError)));
}

#[test]
fn unrecognized_namespace_elements_are_ignored() {
    let with_foreign = format!(
        "{}
    <trk xmlns:other=\"http://example.com/other\">
        <name>Run</name>
        <other:name>ignored</other:name>
        <other:trkseg><other:trkpt lat=\"bad\"/></other:trkseg>
    </trk>
</gpx>",
        GPX_HEADER
    );
    let plain = format!(
        "{}
    <trk>
        <name>Run</name>
    </trk>
</gpx>",
        GPX_HEADER
    );
    let t1 = read_gpx(with_foreign.as_bytes()).unwrap();
    let t2 = read_gpx(plain.as_bytes()).unwrap();
    assert_eq!(t1.name, t2.name);
    assert_eq!(t1.start_time, t2.start_time);
    assert_eq!(t1.route.len(), t2.route.len());
}

#[test]
fn timestamp_with_offset_is_converted_to_utc() {
    let gpx_str = format!(
        "{}<metadata><time>2020-04-22T18:01:58+02:00</time></metadata></gpx>",
        GPX_HEADER
    );
    let track = read_gpx(gpx_str.as_bytes()).unwrap();
    assert_eq!(track.start_time, Some(1_587_571_318_000));
}
