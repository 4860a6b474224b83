//! Sourcetable parsing and nearest-mount search: the caster's directory
//! response is parsed line by line into server information and mount
//! records, and mounts are ranked by geodesic distance to a target.

use vstd::prelude::*;
use vstd::string::StrSliceExecFns;

use crate::text::{
    all_digits, dec_value, has_prefix, parse_coord_micro, parse_dec_limit, signed_decimal_micro,
    split_chars, split_str, str_eq, strip_prefix_str, trim_chars, trim_str,
};

verus! {

/// Mounts farther than this many meters are never selected; it is an
/// exclusive upper bound.
pub const DISTANCE_CUTOFF_METERS: u64 = 100_000;

/// A geographic position in microdegrees of latitude and longitude.
#[derive(Debug, Clone, Copy, PartialEq, Eq, Structural)]
pub struct Location {
    /// Latitude in millionths of a degree.
    pub lat_microdeg: i64,
    /// Longitude in millionths of a degree.
    pub lon_microdeg: i64,
}

impl Location {
    /// A position from microdegree coordinates.
    pub fn new(lat_microdeg: i64, lon_microdeg: i64) -> (r: Self)
        ensures
            r == (Location { lat_microdeg, lon_microdeg }),
    {
        Location { lat_microdeg, lon_microdeg }
    }
}

/// NTRIP stream protocol named in a sourcetable mount line.
#[derive(Debug, Clone, Copy, PartialEq, Eq, Structural)]
pub enum Protocol {
    Rtcm3,
    Rtcm3_0,
    Rtcm3_2,
    Rtcm3_3,
    Raw,
    CMRx,
    Unknown,
}

/// Caster network software named in a sourcetable mount line.
#[derive(Debug, Clone, Copy, PartialEq, Eq, Structural)]
pub enum Network {
    Snip,
    Unknown,
}

/// GNSS constellation named in a sourcetable mount line.
#[derive(Debug, Clone, Copy, PartialEq, Eq, Structural)]
pub enum Constellation {
    Gps,
    Glonass,
    Galileo,
    BeiDou,
    Unknown,
}

/// The protocol denoted by a wire token, when recognized.
pub open spec fn protocol_from_token(s: Seq<char>) -> Option<Protocol> {
    if s == "RTCM 3"@ {
        Some(Protocol::Rtcm3)
    } else if s == "RTCM 3.0"@ {
        Some(Protocol::Rtcm3_0)
    } else if s == "RTCM 3.2"@ {
        Some(Protocol::Rtcm3_2)
    } else if s == "RTCM 3.3"@ {
        Some(Protocol::Rtcm3_3)
    } else if s == "RAW"@ {
        Some(Protocol::Raw)
    } else if s == "CMRx"@ {
        Some(Protocol::CMRx)
    } else if s == "UNKNOWN"@ {
        Some(Protocol::Unknown)
    } else {
        None
    }
}

/// The network denoted by a wire token, with an unknown fallback.
pub open spec fn network_from_token(s: Seq<char>) -> Network {
    if s == "SNIP"@ {
        Network::Snip
    } else {
        Network::Unknown
    }
}

/// The constellation denoted by a wire token, with an unknown fallback.
pub open spec fn constellation_from_token(s: Seq<char>) -> Constellation {
    if s == "GPS"@ {
        Constellation::Gps
    } else if s == "GLO"@ {
        Constellation::Glonass
    } else if s == "GAL"@ {
        Constellation::Galileo
    } else if s == "BDS"@ {
        Constellation::BeiDou
    } else {
        Constellation::Unknown
    }
}

impl Protocol {
    /// The protocol denoted by a wire token, when recognized.
    pub fn from_token(s: &str) -> (r: Option<Protocol>)
        ensures
            r == protocol_from_token(s@),
    {
        if str_eq(s, "RTCM 3") {
            Some(Protocol::Rtcm3)
        } else if str_eq(s, "RTCM 3.0") {
            Some(Protocol::Rtcm3_0)
        } else if str_eq(s, "RTCM 3.2") {
            Some(Protocol::Rtcm3_2)
        } else if str_eq(s, "RTCM 3.3") {
            Some(Protocol::Rtcm3_3)
        } else if str_eq(s, "RAW") {
            Some(Protocol::Raw)
        } else if str_eq(s, "CMRx") {
            Some(Protocol::CMRx)
        } else if str_eq(s, "UNKNOWN") {
            Some(Protocol::Unknown)
        } else {
            None
        }
    }
}

impl Network {
    /// The network denoted by a wire token, with an unknown fallback.
    pub fn from_token(s: &str) -> (r: Network)
        ensures
            r == network_from_token(s@),
    {
        if str_eq(s, "SNIP") {
            Network::Snip
        } else {
            Network::Unknown
        }
    }
}

impl Constellation {
    /// The constellation denoted by a wire token, with an unknown fallback.
    pub fn from_token(s: &str) -> (r: Constellation)
        ensures
            r == constellation_from_token(s@),
    {
        if str_eq(s, "GPS") {
            Constellation::Gps
        } else if str_eq(s, "GLO") {
            Constellation::Glonass
        } else if str_eq(s, "GAL") {
            Constellation::Galileo
        } else if str_eq(s, "BDS") {
            Constellation::BeiDou
        } else {
            Constellation::Unknown
        }
    }
}

/// Whether a token is a recognized ISO 3166-1 alpha-3 country code.
pub uninterp spec fn is_alpha3_code(s: Seq<char>) -> bool;

/// Relies on isocountry::CountryCode::for_alpha3: a pure table lookup
/// recognizing exactly the ISO 3166-1 alpha-3 codes.
#[verifier::external_body]
fn alpha3_recognized(s: &str) -> (r: bool)
    ensures
        r == is_alpha3_code(s@),
{
    isocountry::CountryCode::for_alpha3(s).is_ok()
}

/// Information about one NTRIP mount point.
#[derive(Debug)]
pub struct MountInfo {
    pub name: String,
    pub details: String,
    pub protocol: Protocol,
    pub messages: Vec<String>,
    pub constellations: Vec<Constellation>,
    pub network: Network,
    /// The mount's ISO 3166-1 alpha-3 country code, when recognized.
    pub country: Option<String>,
    pub location: Location,
}

/// Mathematical image of a [`MountInfo`].
#[verifier::ext_equal]
pub struct MountInfoV {
    pub name: Seq<char>,
    pub details: Seq<char>,
    pub protocol: Protocol,
    pub messages: Seq<Seq<char>>,
    pub constellations: Seq<Constellation>,
    pub network: Network,
    pub country: Option<Seq<char>>,
    pub location: Location,
}

impl View for MountInfo {
    type V = MountInfoV;

    open spec fn view(&self) -> MountInfoV {
        MountInfoV {
            name: self.name@,
            details: self.details@,
            protocol: self.protocol,
            messages: self.messages.deep_view(),
            constellations: self.constellations@,
            network: self.network,
            country: match self.country {
                Some(c) => Some(c@),
                None => None,
            },
            location: self.location,
        }
    }
}

/// Information about an NTRIP caster and its mounts, parsed from a
/// sourcetable response.
#[derive(Debug)]
pub struct ServerInfo {
    pub server: Option<String>,
    pub date: Option<String>,
    pub content_type: Option<String>,
    pub content_length: Option<usize>,
    /// The mounts of the caster, in encounter order.
    pub services: Vec<MountInfo>,
}

/// Mathematical image of a [`ServerInfo`].
#[verifier::ext_equal]
pub struct ServerInfoV {
    pub server: Option<Seq<char>>,
    pub date: Option<Seq<char>>,
    pub content_type: Option<Seq<char>>,
    pub content_length: Option<usize>,
    pub services: Seq<MountInfoV>,
}

impl View for ServerInfo {
    type V = ServerInfoV;

    open spec fn view(&self) -> ServerInfoV {
        ServerInfoV {
            server: match self.server {
                Some(s) => Some(s@),
                None => None,
            },
            date: match self.date {
                Some(s) => Some(s@),
                None => None,
            },
            content_type: match self.content_type {
                Some(s) => Some(s@),
                None => None,
            },
            content_length: self.content_length,
            services: self.services@.map_values(|m: MountInfo| m@),
        }
    }
}

/// Protocol field of a mount line: token four, with a raw fallback.
pub open spec fn mount_protocol(parts: Seq<Seq<char>>) -> Protocol {
    if parts.len() > 3 {
        match protocol_from_token(parts[3]) {
            Some(p) => p,
            None => Protocol::Raw,
        }
    } else {
        Protocol::Raw
    }
}

/// Message list of a mount line: token five split on commas and
/// trimmed; empty or absent means no messages.
pub open spec fn mount_messages(parts: Seq<Seq<char>>) -> Seq<Seq<char>> {
    if parts.len() > 4 && parts[4].len() > 0 {
        split_chars(parts[4], ',').map_values(|t: Seq<char>| trim_chars(t))
    } else {
        Seq::<Seq<char>>::empty()
    }
}

/// Constellation list of a mount line: token seven split on `+`.
pub open spec fn mount_constellations(parts: Seq<Seq<char>>) -> Seq<Constellation> {
    if parts.len() > 6 {
        split_chars(parts[6], '+').map_values(|t: Seq<char>| constellation_from_token(t))
    } else {
        Seq::<Constellation>::empty()
    }
}

/// A coordinate field in microdegrees; unparsable or absent means zero.
pub open spec fn mount_coord(parts: Seq<Seq<char>>, i: int) -> i64 {
    if parts.len() > i {
        match signed_decimal_micro(parts[i]) {
            Some(v) => v as i64,
            None => 0,
        }
    } else {
        0
    }
}

/// Meaning of one sourcetable `STR` line: `None` when the line has
/// fewer than three `;`-separated fields or does not begin with the
/// literal `STR` token, else the mount record it denotes.
pub open spec fn mount_from_line(line: Seq<char>) -> Option<MountInfoV> {
    let parts = split_chars(line, ';');
    if parts.len() < 3 || parts[0] != "STR"@ {
        None
    } else {
        Some(MountInfoV {
            name: parts[1],
            details: trim_chars(parts[2]),
            protocol: mount_protocol(parts),
            messages: mount_messages(parts),
            constellations: mount_constellations(parts),
            network: if parts.len() > 7 {
                network_from_token(parts[7])
            } else {
                Network::Unknown
            },
            country: if parts.len() > 8 && is_alpha3_code(parts[8]) {
                Some(parts[8])
            } else {
                None
            },
            location: Location {
                lat_microdeg: mount_coord(parts, 9),
                lon_microdeg: mount_coord(parts, 10),
            },
        })
    }
}

impl MountInfo {
    /// Parses one sourcetable `STR` line into a mount record.
    pub fn parse(info: &str) -> (r: Option<MountInfo>)
        ensures
            r is Some <==> mount_from_line(info@) is Some,
            r matches Some(m) ==> Some(m@) == mount_from_line(info@),
    {
        let parts = split_str(info, ';');
        proof {
            crate::text::lemma_split_nonempty(info@, ';');
        }
        if parts.len() < 3 {
            return None;
        }
        proof {
            assert(parts.deep_view()[0] == parts@[0]@);
            assert(parts.deep_view()[1] == parts@[1]@);
            assert(parts.deep_view()[2] == parts@[2]@);
        }
        if !str_eq(parts[0].as_str(), "STR") {
            return None;
        }
        let ghost pv = split_chars(info@, ';');
        let name = parts[1].clone();
        let details = trim_str(parts[2].as_str());
        let protocol: Protocol = if parts.len() > 3 {
            proof {
                assert(parts.deep_view()[3] == parts@[3]@);
            }
            match Protocol::from_token(parts[3].as_str()) {
                Some(p) => p,
                None => Protocol::Raw,
            }
        } else {
            Protocol::Raw
        };
        let messages: Vec<String> = if parts.len() > 4 && parts[4].as_str().unicode_len() > 0 {
            proof {
                assert(parts.deep_view()[4] == parts@[4]@);
            }
            let toks = split_str(parts[4].as_str(), ',');
            let ghost target = mount_messages(pv);
            let mut msgs: Vec<String> = Vec::new();
            let mut i: usize = 0;
            proof {
                assert(msgs.deep_view() =~= target.take(0));
            }
            while i < toks.len()
                invariant
                    0 <= i <= toks.len(),
                    toks.deep_view() == split_chars(pv[4], ','),
                    pv == split_chars(info@, ';'),
                    pv.len() > 4,
                    pv[4].len() > 0,
                    target == mount_messages(pv),
                    msgs.deep_view() =~= target.take(i as int),
                decreases toks.len() - i,
            {
                proof {
                    assert(toks.deep_view()[i as int] == toks@[i as int]@);
                }
                let t = trim_str(toks[i].as_str());
                let ghost dv0 = msgs.deep_view();
                let ghost tv = t@;
                msgs.push(t);
                proof {
                    assert(msgs.deep_view() =~= dv0.push(tv));
                    assert(target[i as int] == trim_chars(toks.deep_view()[i as int]));
                    assert(msgs.deep_view() =~= target.take(i + 1));
                }
                i += 1;
            }
            proof {
                assert(target.take(toks.len() as int) =~= target);
            }
            msgs
        } else {
            let empty_msgs: Vec<String> = Vec::new();
            proof {
                if parts.len() > 4 {
                    assert(parts.deep_view()[4] == parts@[4]@);
                }
                assert(mount_messages(pv) =~= Seq::<Seq<char>>::empty());
                assert(empty_msgs.deep_view() =~= Seq::<Seq<char>>::empty());
            }
            empty_msgs
        };
        let constellations: Vec<Constellation> = if parts.len() > 6 {
            proof {
                assert(parts.deep_view()[6] == parts@[6]@);
            }
            let toks = split_str(parts[6].as_str(), '+');
            let ghost target = mount_constellations(pv);
            let mut cs: Vec<Constellation> = Vec::new();
            let mut i: usize = 0;
            proof {
                assert(cs@ =~= target.take(0));
            }
            while i < toks.len()
                invariant
                    0 <= i <= toks.len(),
                    toks.deep_view() == split_chars(pv[6], '+'),
                    pv == split_chars(info@, ';'),
                    pv.len() > 6,
                    target == mount_constellations(pv),
                    cs@ =~= target.take(i as int),
                decreases toks.len() - i,
            {
                proof {
                    assert(toks.deep_view()[i as int] == toks@[i as int]@);
                    assert(target[i as int] == constellation_from_token(
                        toks.deep_view()[i as int],
                    ));
                }
                let c = Constellation::from_token(toks[i].as_str());
                cs.push(c);
                proof {
                    assert(cs@ =~= target.take(i + 1));
                }
                i += 1;
            }
            proof {
                assert(target.take(toks.len() as int) =~= target);
            }
            cs
        } else {
            proof {
                assert(mount_constellations(pv) =~= Seq::<Constellation>::empty());
            }
            Vec::new()
        };
        let network: Network = if parts.len() > 7 {
            proof {
                assert(parts.deep_view()[7] == parts@[7]@);
            }
            Network::from_token(parts[7].as_str())
        } else {
            Network::Unknown
        };
        let country: Option<String> = if parts.len() > 8 {
            proof {
                assert(parts.deep_view()[8] == parts@[8]@);
            }
            if alpha3_recognized(parts[8].as_str()) {
                Some(parts[8].clone())
            } else {
                None
            }
        } else {
            None
        };
        let lat: i64 = if parts.len() > 9 {
            proof {
                assert(parts.deep_view()[9] == parts@[9]@);
            }
            match parse_coord_micro(parts[9].as_str()) {
                Some(v) => v,
                None => 0,
            }
        } else {
            0
        };
        let lon: i64 = if parts.len() > 10 {
            proof {
                assert(parts.deep_view()[10] == parts@[10]@);
            }
            match parse_coord_micro(parts[10].as_str()) {
                Some(v) => v,
                None => 0,
            }
        } else {
            0
        };
        let m = MountInfo {
            name,
            details,
            protocol,
            messages,
            constellations,
            network,
            country,
            location: Location { lat_microdeg: lat, lon_microdeg: lon },
        };
        proof {
            assert(m@ =~= mount_from_line(info@).unwrap());
        }
        Some(m)
    }
}

/// The empty server record, before any line is read.
pub open spec fn sourcetable_empty() -> ServerInfoV {
    ServerInfoV {
        server: None,
        date: None,
        content_type: None,
        content_length: None,
        services: Seq::<MountInfoV>::empty(),
    }
}

/// Effect of one sourcetable line on the record built so far: header
/// prefixes replace the matching field, valid `STR` lines append a
/// mount, and anything else is ignored.
pub open spec fn sourcetable_step(acc: ServerInfoV, line: Seq<char>) -> ServerInfoV {
    if has_prefix(line, "Server: "@) {
        ServerInfoV { server: Some(line.skip("Server: "@.len() as int)), ..acc }
    } else if has_prefix(line, "Date: "@) {
        ServerInfoV { date: Some(line.skip("Date: "@.len() as int)), ..acc }
    } else if has_prefix(line, "Content-Type: "@) {
        ServerInfoV { content_type: Some(line.skip("Content-Type: "@.len() as int)), ..acc }
    } else if has_prefix(line, "Content-Length: "@) {
        let v = line.skip("Content-Length: "@.len() as int);
        ServerInfoV {
            content_length: if v.len() > 0 && all_digits(v) && dec_value(v) <= usize::MAX as int {
                Some(dec_value(v) as usize)
            } else {
                None
            },
            ..acc
        }
    } else if has_prefix(line, "STR;"@) {
        match mount_from_line(line) {
            Some(m) => ServerInfoV { services: acc.services.push(m), ..acc },
            None => acc,
        }
    } else {
        acc
    }
}

/// Meaning of a whole sourcetable response, line by line.
pub open spec fn sourcetable_info(lines: Seq<Seq<char>>) -> ServerInfoV
    decreases lines.len(),
{
    if lines.len() == 0 {
        sourcetable_empty()
    } else {
        sourcetable_step(sourcetable_info(lines.drop_last()), lines.last())
    }
}

impl ServerInfo {
    /// Parses a sourcetable response, given as its lines in order.
    /// Total: malformed mount lines are skipped, never fatal.
    pub fn parse(lines: &Vec<String>) -> (r: ServerInfo)
        ensures
            r@ == sourcetable_info(lines.deep_view()),
    {
        let mut info = ServerInfo {
            server: None,
            date: None,
            content_type: None,
            content_length: None,
            services: Vec::new(),
        };
        proof {
            assert(info@ =~= sourcetable_info(lines.deep_view().take(0)));
        }
        let mut i: usize = 0;
        while i < lines.len()
            invariant
                0 <= i <= lines@.len(),
                info@ == sourcetable_info(lines.deep_view().take(i as int)),
            decreases lines@.len() - i,
        {
            proof {
                assert(lines.deep_view()[i as int] == lines@[i as int]@);
                assert(lines.deep_view().take(i + 1).drop_last() =~= lines.deep_view().take(
                    i as int,
                ));
                assert(lines.deep_view().take(i + 1).last() == lines.deep_view()[i as int]);
            }
            let line = lines[i].as_str();
            if let Some(v) = strip_prefix_str(line, "Server: ") {
                info.server = Some(v);
            } else if let Some(v) = strip_prefix_str(line, "Date: ") {
                info.date = Some(v);
            } else if let Some(v) = strip_prefix_str(line, "Content-Type: ") {
                info.content_type = Some(v);
            } else if let Some(v) = strip_prefix_str(line, "Content-Length: ") {
                info.content_length = match parse_dec_limit(v.as_str(), usize::MAX as u64) {
                    Some(n) => Some(n as usize),
                    None => None,
                };
            } else if crate::text::begins_with(line, "STR;") {
                match MountInfo::parse(line) {
                    Some(m) => {
                        let ghost sv0 = info@.services;
                        let ghost mv = m@;
                        info.services.push(m);
                        proof {
                            assert(info@.services =~= sv0.push(mv));
                            assert(info@ =~= sourcetable_info(lines.deep_view().take(i + 1)));
                        }
                    },
                    None => {},
                }
            }
            proof {
                assert(info@ =~= sourcetable_info(lines.deep_view().take(i + 1)));
            }
            i += 1;
        }
        proof {
            assert(lines.deep_view().take(lines@.len() as int) =~= lines.deep_view());
        }
        info
    }

    /// The nearest mount and its distance in meters, given the geodesic
    /// distance of each mount from the target (`None` for a mount whose
    /// distance could not be computed, which excludes it). Mounts at or
    /// beyond the cutoff are never selected; ties go to the mount
    /// encountered first.
    pub fn find_nearest(&self, distances: &Vec<Option<u64>>) -> (r: Option<(&MountInfo, u64)>)
        requires
            distances@.len() == self.services@.len(),
        ensures
            r is Some <==> scan_nearest(distances@) is Some,
            r matches Some((m, d)) ==> {
                let best = scan_nearest(distances@).unwrap();
                &&& 0 <= best.0 < self@.services.len()
                &&& m@ == self@.services[best.0]
                &&& d == best.1
            },
    {
        let mut best_idx: usize = 0;
        let mut best_d: u64 = DISTANCE_CUTOFF_METERS;
        let mut found = false;
        let mut i: usize = 0;
        proof {
            assert(distances@.take(0) =~= Seq::<Option<u64>>::empty());
        }
        while i < distances.len()
            invariant
                0 <= i <= distances@.len(),
                distances@.len() == self.services@.len(),
                match scan_nearest(distances@.take(i as int)) {
                    Some(p) => found && p.0 == best_idx as int && p.1 == best_d
                        && 0 <= best_idx < i,
                    None => !found && best_d == DISTANCE_CUTOFF_METERS,
                },
            decreases distances@.len() - i,
        {
            proof {
                assert(distances@.take(i + 1).drop_last() =~= distances@.take(i as int));
                assert(distances@.take(i + 1).last() == distances@[i as int]);
            }
            match distances[i] {
                Some(d) => {
                    if d < best_d {
                        best_idx = i;
                        best_d = d;
                        found = true;
                    }
                },
                None => {},
            }
            i += 1;
        }
        proof {
            assert(distances@.take(distances@.len() as int) =~= distances@);
            assert(self@.services.len() == self.services@.len());
            if found {
                assert(self@.services[best_idx as int] == self.services@[best_idx as int]@);
            }
        }
        if found {
            Some((&self.services[best_idx], best_d))
        } else {
            None
        }
    }
}

/// The distance is known and strictly under `bound`.
pub open spec fn within_bound(d: Option<u64>, bound: u64) -> bool {
    match d {
        Some(v) => v < bound,
        None => false,
    }
}

/// The distance is known and at most `bound`.
pub open spec fn at_most_bound(d: Option<u64>, bound: u64) -> bool {
    match d {
        Some(v) => v <= bound,
        None => false,
    }
}

/// First-encountered minimum of a distance scan under the cutoff.
pub open spec fn scan_nearest(ds: Seq<Option<u64>>) -> Option<(int, u64)>
    decreases ds.len(),
{
    if ds.len() == 0 {
        None
    } else {
        let prev = scan_nearest(ds.drop_last());
        let bound = match prev {
            Some(p) => p.1,
            None => DISTANCE_CUTOFF_METERS,
        };
        match ds.last() {
            Some(d) => if d < bound {
                Some((ds.len() - 1, d))
            } else {
                prev
            },
            None => prev,
        }
    }
}

/// The nearest-mount scan returns nothing exactly when no distance is
/// known and under the cutoff — in particular over an empty mount list —
/// and otherwise returns the earliest mount of minimal distance: no
/// earlier mount is as close, and no mount at all is closer.
pub proof fn lemma_scan_nearest_properties(ds: Seq<Option<u64>>)
    ensures
        scan_nearest(ds) is None <==> (forall|j: int|
            0 <= j < ds.len() ==> !within_bound(ds[j], DISTANCE_CUTOFF_METERS)),
        scan_nearest(ds) matches Some(p) ==> {
            &&& 0 <= p.0 < ds.len()
            &&& ds[p.0] == Some(p.1)
            &&& p.1 < DISTANCE_CUTOFF_METERS
            &&& forall|j: int| 0 <= j < p.0 ==> !at_most_bound(ds[j], p.1)
            &&& forall|j: int| 0 <= j < ds.len() ==> !within_bound(ds[j], p.1)
        },
    decreases ds.len(),
{
    if ds.len() > 0 {
        let n = ds.len() as int;
        let dl = ds.drop_last();
        lemma_scan_nearest_properties(dl);
        assert(forall|j: int| 0 <= j < n - 1 ==> ds[j] == #[trigger] dl[j]);
        assert(ds[n - 1] == ds.last());
        let prev = scan_nearest(dl);
        let bound: u64 = match prev {
            Some(q) => q.1,
            None => DISTANCE_CUTOFF_METERS,
        };
        assert(bound <= DISTANCE_CUTOFF_METERS);
        assert forall|j: int| 0 <= j < n - 1 implies !within_bound(ds[j], bound) by {
            assert(!within_bound(dl[j], bound));
        }
        match ds.last() {
            Some(d) => {
                if d < bound {
                    assert(scan_nearest(ds) == Some((n - 1, d)));
                    assert forall|j: int| 0 <= j < n - 1 implies !at_most_bound(ds[j], d) by {
                        assert(!within_bound(ds[j], bound));
                    }
                    assert forall|j: int| 0 <= j < n implies !within_bound(ds[j], d) by {
                        if j < n - 1 {
                            assert(!within_bound(ds[j], bound));
                        }
                    }
                    assert(within_bound(ds[n - 1], DISTANCE_CUTOFF_METERS));
                } else {
                    assert(scan_nearest(ds) == prev);
                    match prev {
                        Some(q) => {
                            assert(ds[q.0] == dl[q.0]);
                            assert(within_bound(ds[q.0], DISTANCE_CUTOFF_METERS));
                            assert(!within_bound(ds[n - 1], q.1));
                            assert forall|j: int| 0 <= j < q.0 implies !at_most_bound(ds[j], q.1) by {
                                assert(!at_most_bound(dl[j], q.1));
                            }
                            assert forall|j: int| 0 <= j < n implies !within_bound(ds[j], q.1) by {
                                if j < n - 1 {
                                    assert(!within_bound(dl[j], q.1));
                                }
                            }
                        },
                        None => {
                            assert(!within_bound(ds[n - 1], DISTANCE_CUTOFF_METERS));
                        },
                    }
                }
            },
            None => {
                assert(scan_nearest(ds) == prev);
                match prev {
                    Some(q) => {
                        assert(ds[q.0] == dl[q.0]);
                        assert(within_bound(ds[q.0], DISTANCE_CUTOFF_METERS));
                        assert(!within_bound(ds[n - 1], q.1));
                        assert forall|j: int| 0 <= j < q.0 implies !at_most_bound(ds[j], q.1) by {
                            assert(!at_most_bound(dl[j], q.1));
                        }
                        assert forall|j: int| 0 <= j < n implies !within_bound(ds[j], q.1) by {
                            if j < n - 1 {
                                assert(!within_bound(dl[j], q.1));
                            }
                        }
                    },
                    None => {
                        assert(!within_bound(ds[n - 1], DISTANCE_CUTOFF_METERS));
                    },
                }
            },
        }
    }
}

/// A malformed `STR` line — too few fields or a wrong leading token —
/// leaves the record built so far unchanged.
pub proof fn lemma_malformed_str_line_ignored(acc: ServerInfoV, line: Seq<char>)
    requires
        has_prefix(line, "STR;"@),
        mount_from_line(line) is None,
    ensures
        sourcetable_step(acc, line) == acc,
{
    reveal_strlit("STR;");
    reveal_strlit("Server: ");
    reveal_strlit("Date: ");
    reveal_strlit("Content-Type: ");
    reveal_strlit("Content-Length: ");
    let strp = "STR;"@;
    assert(line.subrange(0, strp.len() as int) == strp);
    assert(line[0] == strp[0]) by {
        assert(line.subrange(0, strp.len() as int)[0] == line[0]);
    }
    assert(line[1] == strp[1]) by {
        assert(line.subrange(0, strp.len() as int)[1] == line[1]);
    }
    if has_prefix(line, "Server: "@) {
        assert(line[1] == "Server: "@[1]) by {
            assert(line.subrange(0, "Server: "@.len() as int)[1] == line[1]);
        }
    }
    if has_prefix(line, "Date: "@) {
        assert(line[0] == "Date: "@[0]) by {
            assert(line.subrange(0, "Date: "@.len() as int)[0] == line[0]);
        }
    }
    if has_prefix(line, "Content-Type: "@) {
        assert(line[0] == "Content-Type: "@[0]) by {
            assert(line.subrange(0, "Content-Type: "@.len() as int)[0] == line[0]);
        }
    }
    if has_prefix(line, "Content-Length: "@) {
        assert(line[0] == "Content-Length: "@[0]) by {
            assert(line.subrange(0, "Content-Length: "@.len() as int)[0] == line[0]);
        }
    }
}

/// Inserting a malformed `STR` line anywhere into a sourcetable leaves
/// the parsed record — its mount count included — unchanged.
pub proof fn lemma_malformed_str_line_skipped(lines: Seq<Seq<char>>, i: int, line: Seq<char>)
    requires
        0 <= i <= lines.len(),
        has_prefix(line, "STR;"@),
        mount_from_line(line) is None,
    ensures
        sourcetable_info(lines.insert(i, line)) == sourcetable_info(lines),
    decreases lines.len(),
{
    let ins = lines.insert(i, line);
    if i == lines.len() {
        assert(ins.drop_last() =~= lines);
        assert(ins.last() == line);
        lemma_malformed_str_line_ignored(sourcetable_info(lines), line);
    } else {
        assert(ins.last() == lines.last());
        assert(ins.drop_last() =~= lines.drop_last().insert(i, line));
        lemma_malformed_str_line_skipped(lines.drop_last(), i, line);
    }
}

} // verus!
