use ntrip_client::Constellation;
use ntrip_client::Location;
use ntrip_client::MountInfo;
use ntrip_client::Network;
use ntrip_client::Protocol;
use ntrip_client::ServerInfo;

fn geo_distance(a: &Location, b: &Location) -> Option<u64> {
    let ga = geoutils::Location::new(a.lat_microdeg as f64 / 1e6, a.lon_microdeg as f64 / 1e6);
    let gb = geoutils::Location::new(b.lat_microdeg as f64 / 1e6, b.lon_microdeg as f64 / 1e6);
    match ga.distance_to(&gb) {
        Ok(d) => Some(d.meters() as u64),
        Err(_) => None,
    }
}

#[test]
fn test_parse_server_info() {
    let info = "STR;VargaRTKhr;Is near: Zagreb, Zagreb;RTCM 3.2;1006(1),1033(1),1074(1),1084(1),1094(1),1124(1),1230(1);;GPS+GLO+GAL+BDS;SNIP;HRV;46.44;16.50;1;0;sNTRIP;none;B;N;0;\n";

    let server_info = MountInfo::parse(info).unwrap();

    assert_eq!(server_info.name, "VargaRTKhr");
    assert_eq!(server_info.details, "Is near: Zagreb, Zagreb");
    assert_eq!(server_info.protocol, Protocol::Rtcm3_2);
    assert_eq!(
        server_info.messages,
        vec!["1006(1)", "1033(1)", "1074(1)", "1084(1)", "1094(1)", "1124(1)", "1230(1)"]
    );
    assert_eq!(
        server_info.constellations,
        vec![
            Constellation::Gps,
            Constellation::Glonass,
            Constellation::Galileo,
            Constellation::BeiDou
        ]
    );
    assert_eq!(server_info.network, Network::Snip);
    assert_eq!(server_info.country, Some("HRV".to_string()));
    assert!((server_info.location.lat_microdeg as f64 / 1e6 - 46.44).abs() < 0.001);
    assert!((server_info.location.lon_microdeg as f64 / 1e6 - 16.50).abs() < 0.001);
}

#[test]
fn test_parse_snip_info() {
    let snip_response = "
            SOURCETABLE 200 OK\n
            Server: NTRIP SNIP/2.0\n
            Date: Wed, 26 Jun 2024 12:00:00 GMT\n
            Content-Type: text/plain; charset=utf-8\n
            Content-Length: 1234\n
            STR;warrakam;Is near: Sydney, New South Wales;RTCM 3;1004(1), 1005(10), 1008(10), 1012(1), 1019(2), 1020(2), 1033(10), 1042(2), 1046(2), 1077(1), 1087(1), 1097(1), 1127(1), 1230(30);2;;SNIP;AUS;-36.37;144.46;1;0;SNIP;none;B;N;11740;\n
            STR;VargaRTKhr;Is near: Zagreb, Zagreb;RTCM 3.2;1006(1),1033(1),1074(1),1084(1),1094(1),1124(1),1230(1);;GPS+GLO+GAL+BDS;SNIP;HRV;46.44;16.50;1;0;sNTRIP;none;B;N;0;\n
        ";

    let lines = snip_response
        .lines()
        .map(|l| l.trim().to_string())
        .collect::<Vec<String>>();

    let snip_info = ServerInfo::parse(&lines);

    assert_eq!(snip_info.server, Some("NTRIP SNIP/2.0".to_string()));
    assert_eq!(snip_info.date, Some("Wed, 26 Jun 2024 12:00:00 GMT".to_string()));
    assert_eq!(snip_info.content_type, Some("text/plain; charset=utf-8".to_string()));
    assert_eq!(snip_info.content_length, Some(1234));
    assert_eq!(snip_info.services.len(), 2);
    assert_eq!(snip_info.services[0].name, "warrakam");
    assert_eq!(snip_info.services[1].name, "VargaRTKhr");
}

#[test]
fn malformed_str_lines_are_skipped() {
    let lines: Vec<String> = vec![
        "STR".to_string(),
        "STR;OnlyAName".to_string(),
        "XYZ;name;details".to_string(),
        "STR;good;A valid mount;RTCM 3.2;;;GPS;SNIP;HRV;46.44;16.50;".to_string(),
        "STRANGE;not;a;mount".to_string(),
    ];
    let info = ServerInfo::parse(&lines);
    assert_eq!(info.services.len(), 1);
    assert_eq!(info.services[0].name, "good");
}

#[test]
fn mount_line_defaults_for_missing_fields() {
    let m = MountInfo::parse("STR;short;just name and details").unwrap();
    assert_eq!(m.name, "short");
    assert_eq!(m.details, "just name and details");
    assert_eq!(m.protocol, Protocol::Raw);
    assert!(m.messages.is_empty());
    assert!(m.constellations.is_empty());
    assert_eq!(m.network, Network::Unknown);
    assert_eq!(m.country, None);
    assert_eq!(m.location.lat_microdeg, 0);
    assert_eq!(m.location.lon_microdeg, 0);
}

#[test]
fn mount_line_unrecognized_tokens_fall_back() {
    let m = MountInfo::parse("STR;m;d;FUTURE PROTO;msg1;;GPS+QZS;OTHERNET;ZZZ;bad;worse;").unwrap();
    assert_eq!(m.protocol, Protocol::Raw);
    assert_eq!(m.constellations, vec![Constellation::Gps, Constellation::Unknown]);
    assert_eq!(m.network, Network::Unknown);
    assert_eq!(m.country, None);
    assert_eq!(m.location.lat_microdeg, 0);
    assert_eq!(m.location.lon_microdeg, 0);
}

#[test]
fn find_nearest_empty_or_out_of_range_is_none() {
    let empty = ServerInfo::parse(&Vec::new());
    assert!(empty.find_nearest(&Vec::new()).is_none());

    let lines: Vec<String> = vec![
        "STR;far1;far;RTCM 3.2;;;GPS;SNIP;HRV;46.44;16.50;".to_string(),
        "STR;far2;farther;RTCM 3.2;;;GPS;SNIP;HRV;48.00;17.00;".to_string(),
    ];
    let info = ServerInfo::parse(&lines);
    let target = Location::new(40_000_000, 10_000_000);
    let dists: Vec<Option<u64>> = info
        .services
        .iter()
        .map(|m| geo_distance(&m.location, &target))
        .collect();
    for d in &dists {
        assert!(d.map_or(true, |v| v >= 100_000));
    }
    assert!(info.find_nearest(&dists).is_none());
}

#[test]
fn find_nearest_picks_the_closer_mount() {
    let lines: Vec<String> = vec![
        "STR;fifty;about 50 km away;RTCM 3.2;;;GPS;SNIP;HRV;46.45;16.00;".to_string(),
        "STR;five;about 5 km away;RTCM 3.2;;;GPS;SNIP;HRV;46.045;16.00;".to_string(),
    ];
    let info = ServerInfo::parse(&lines);
    let target = Location::new(46_000_000, 16_000_000);
    let dists: Vec<Option<u64>> = info
        .services
        .iter()
        .map(|m| geo_distance(&m.location, &target))
        .collect();
    let d0 = dists[0].unwrap();
    let d1 = dists[1].unwrap();
    assert!((40_000..60_000).contains(&d0));
    assert!((4_000..6_000).contains(&d1));

    let (m, d) = info.find_nearest(&dists).unwrap();
    assert_eq!(m.name, "five");
    assert_eq!(d, d1);
}

#[test]
fn find_nearest_breaks_ties_by_first_encountered() {
    let lines: Vec<String> = vec![
        "STR;first;tie;RTCM 3.2;;;GPS;SNIP;HRV;46.045;16.00;".to_string(),
        "STR;second;tie;RTCM 3.2;;;GPS;SNIP;HRV;46.045;16.00;".to_string(),
    ];
    let info = ServerInfo::parse(&lines);
    let dists: Vec<Option<u64>> = vec![Some(5_000), Some(5_000)];
    let (m, d) = info.find_nearest(&dists).unwrap();
    assert_eq!(m.name, "first");
    assert_eq!(d, 5_000);
}

#[test]
fn find_nearest_excludes_failed_distances() {
    let lines: Vec<String> = vec![
        "STR;broken;no distance;RTCM 3.2;;;GPS;SNIP;HRV;0.0;0.0;".to_string(),
        "STR;near;close by;RTCM 3.2;;;GPS;SNIP;HRV;46.045;16.00;".to_string(),
    ];
    let info = ServerInfo::parse(&lines);
    let dists: Vec<Option<u64>> = vec![None, Some(7_000)];
    let (m, d) = info.find_nearest(&dists).unwrap();
    assert_eq!(m.name, "near");
    assert_eq!(d, 7_000);
}
