//! A small registry of coordinate reference systems, keyed by EPSG code.

use vstd::prelude::*;

use crate::text;
use crate::text::{copy, push_dec, push_str};

verus! {

/// How positions are projected.
#[derive(Clone, Copy, Debug, PartialEq, Eq, Structural)]
pub enum Projection {
    /// Geographic; "easting/northing" are longitude/latitude in degrees.
    Geographic,
    WebMercator,
    Utm { zone: u8, north: bool },
    /// The Dutch national grid, on a datum of its own.
    RdNew,
    LaeaEurope,
    /// UTM zone 31 on the datum of the older North Sea charts.
    Ed50Utm31,
}

/// What there is to say of a coordinate reference system.
#[derive(Debug)]
pub struct CrsInfo {
    pub epsg: u32,
    pub name: String,
    /// Axis labels in report order.
    pub axes: (String, String),
    pub unit: String,
    /// Decimal places worth printing for this unit.
    pub decimals: usize,
    pub proj: Projection,
}

/// The projection with the given code, where the registry has it. The two ETRS89
/// and WGS 84 families of UTM zones share an ellipsoid to well within survey
/// tolerance.
pub open spec fn projection_of(epsg: u32) -> Option<Projection> {
    if epsg == 4326 {
        Some(Projection::Geographic)
    } else if epsg == 3857 {
        Some(Projection::WebMercator)
    } else if 32601 <= epsg <= 32660 {
        Some(Projection::Utm { zone: (epsg - 32600) as u8, north: true })
    } else if 32701 <= epsg <= 32760 {
        Some(Projection::Utm { zone: (epsg - 32700) as u8, north: false })
    } else if 25828 <= epsg <= 25838 {
        Some(Projection::Utm { zone: (epsg - 25800) as u8, north: true })
    } else if epsg == 28992 {
        Some(Projection::RdNew)
    } else if epsg == 3035 {
        Some(Projection::LaeaEurope)
    } else if epsg == 23031 {
        Some(Projection::Ed50Utm31)
    } else {
        None
    }
}

/// A number brought into 1 to 60.
pub open spec fn zone_in_range(zone: int) -> int {
    if zone < 1 {
        1
    } else if zone > 60 {
        60
    } else {
        zone
    }
}

/// The name of a UTM zone.
pub open spec fn zone_name(zone: int, north: bool) -> Seq<char> {
    "UTM zone "@ + text::dec(zone_in_range(zone) as nat) + (if north {
        "N"@
    } else {
        "S"@
    })
}

/// The name of a UTM zone.
pub fn utm_name(zone: u8, north: bool) -> (s: String)
    ensures
        s@ == zone_name(zone as int, north),
{
    let z: u8 = if zone < 1 {
        1
    } else if zone > 60 {
        60
    } else {
        zone
    };
    let mut s = String::new();
    push_str(&mut s, "UTM zone ");
    push_dec(&mut s, z as u64);
    push_str(
        &mut s,
        if north {
            "N"
        } else {
            "S"
        },
    );
    proof {
        assert(s@ =~= zone_name(zone as int, north));
    }
    s
}

/// The name of a projection.
pub open spec fn projection_name(p: Projection) -> Seq<char> {
    match p {
        Projection::Geographic => "WGS 84 (geographic)"@,
        Projection::WebMercator => "WGS 84 / Pseudo-Mercator"@,
        Projection::Utm { zone, north } => zone_name(zone as int, north),
        Projection::RdNew => "Amersfoort / RD New"@,
        Projection::LaeaEurope => "ETRS89-extended / LAEA Europe"@,
        Projection::Ed50Utm31 => "ED50 / UTM zone 31N"@,
    }
}

/// The labels of a projection's axes.
pub open spec fn axis_names(p: Projection) -> (Seq<char>, Seq<char>) {
    match p {
        Projection::Geographic => ("Longitude"@, "Latitude"@),
        Projection::RdNew => ("X"@, "Y"@),
        _ => ("Easting"@, "Northing"@),
    }
}

/// The unit of a projection's axes.
pub open spec fn unit_name(p: Projection) -> Seq<char> {
    if p == Projection::Geographic {
        "deg"@
    } else {
        "m"@
    }
}

/// Decimal places worth printing.
pub open spec fn places(p: Projection) -> int {
    match p {
        Projection::Geographic => 8,
        Projection::RdNew => 3,
        _ => 2,
    }
}

/// Whether an entry says of a projection what there is to say.
pub open spec fn describes(c: CrsInfo, epsg: u32, p: Projection) -> bool {
    &&& c.epsg == epsg
    &&& c.proj == p
    &&& c.name@ == projection_name(p)
    &&& c.axes.0@ == axis_names(p).0
    &&& c.axes.1@ == axis_names(p).1
    &&& c.unit@ == unit_name(p)
    &&& c.decimals == places(p)
}

fn find(epsg: u32) -> (r: Option<Projection>)
    ensures
        r == projection_of(epsg),
{
    if epsg == 4326 {
        Some(Projection::Geographic)
    } else if epsg == 3857 {
        Some(Projection::WebMercator)
    } else if 32601 <= epsg && epsg <= 32660 {
        Some(Projection::Utm { zone: (epsg - 32600) as u8, north: true })
    } else if 32701 <= epsg && epsg <= 32760 {
        Some(Projection::Utm { zone: (epsg - 32700) as u8, north: false })
    } else if 25828 <= epsg && epsg <= 25838 {
        Some(Projection::Utm { zone: (epsg - 25800) as u8, north: true })
    } else if epsg == 28992 {
        Some(Projection::RdNew)
    } else if epsg == 3035 {
        Some(Projection::LaeaEurope)
    } else if epsg == 23031 {
        Some(Projection::Ed50Utm31)
    } else {
        None
    }
}

/// Look up a coordinate reference system by its code.
pub fn get(epsg: u32) -> (r: Option<CrsInfo>)
    ensures
        match projection_of(epsg) {
            None => r is None,
            Some(p) => r matches Some(c) && describes(c, epsg, p),
        },
{
    let p = match find(epsg) {
        None => {
            return None;
        },
        Some(p) => p,
    };
    let name = match p {
        Projection::Geographic => copy("WGS 84 (geographic)"),
        Projection::WebMercator => copy("WGS 84 / Pseudo-Mercator"),
        Projection::Utm { zone, north } => utm_name(zone, north),
        Projection::RdNew => copy("Amersfoort / RD New"),
        Projection::LaeaEurope => copy("ETRS89-extended / LAEA Europe"),
        Projection::Ed50Utm31 => copy("ED50 / UTM zone 31N"),
    };
    let axes = match p {
        Projection::Geographic => (copy("Longitude"), copy("Latitude")),
        Projection::RdNew => (copy("X"), copy("Y")),
        _ => (copy("Easting"), copy("Northing")),
    };
    let unit = match p {
        Projection::Geographic => copy("deg"),
        _ => copy("m"),
    };
    let decimals: usize = match p {
        Projection::Geographic => 8,
        Projection::RdNew => 3,
        _ => 2,
    };
    Some(CrsInfo { epsg, name, axes, unit, decimals, proj: p })
}

impl CrsInfo {
    pub fn is_geographic(&self) -> (r: bool)
        ensures
            r == (self.proj == Projection::Geographic),
    {
        self.proj == Projection::Geographic
    }
}

/// The code of a UTM zone.
pub fn utm_epsg(zone: u8, north: bool) -> (e: u32)
    requires
        1 <= zone <= 60,
    ensures
        e == (if north {
            32600int
        } else {
            32700int
        }) + zone,
        projection_of(e) == Some(Projection::Utm { zone, north }),
{
    if north {
        32600 + zone as u32
    } else {
        32700 + zone as u32
    }
}

/// What to offer for a survey in the given UTM zone: always WGS 84 and the
/// zone, and the regional grids where it lies on the Dutch shelf or in Europe.
pub fn suggestions(zone: u8, north: bool, dutch: bool, europe: bool) -> (v: Vec<u32>)
    requires
        1 <= zone <= 60,
    ensures
        v@ == seq![
            4326u32,
            ((if north {
                32600int
            } else {
                32700int
            }) + zone) as u32,
        ] + (if dutch {
            seq![28992u32]
        } else {
            Seq::<u32>::empty()
        }) + (if europe {
            seq![3035u32, 23031u32]
        } else {
            Seq::<u32>::empty()
        }),
        forall|i: int| 0 <= i < v@.len() ==> projection_of(#[trigger] v@[i]) is Some,
{
    let mut v: Vec<u32> = Vec::new();
    v.push(4326);
    v.push(utm_epsg(zone, north));
    if dutch {
        v.push(28992);
    }
    if europe {
        v.push(3035);
        v.push(23031);
    }
    v
}

/// The letter behind a position's angle: north or south of a latitude, east or
/// west of a longitude.
pub fn hemisphere(is_lat: bool, positive: bool) -> (c: char)
    ensures
        c == (match (is_lat, positive) {
            (true, true) => 'N',
            (true, false) => 'S',
            (false, true) => 'E',
            (false, false) => 'W',
        }),
{
    match (is_lat, positive) {
        (true, true) => 'N',
        (true, false) => 'S',
        (false, true) => 'E',
        (false, false) => 'W',
    }
}

/// A code of a zone names the zone and its side of the equator, and each zone has a
/// code of its own on either side.
pub proof fn law_zones(epsg: u32)
    ensures
        projection_of(epsg) matches Some(Projection::Utm { zone, north }) ==> 1 <= zone <= 60 && (if north {
            epsg == 32600 + zone || epsg == 25800 + zone && 28 <= zone <= 38
        } else {
            epsg == 32700 + zone
        }),
        forall|zone: u8| #![trigger zone_in_range(zone as int)]
            1 <= zone <= 60 ==> projection_of((32600 + zone) as u32) == Some(
                Projection::Utm { zone, north: true },
            ) && projection_of((32700 + zone) as u32) == Some(Projection::Utm { zone, north: false })
                && zone_in_range(zone as int) == zone,
        projection_of(epsg) is Some ==> epsg == 4326 || epsg == 3857 || epsg == 28992 || epsg == 3035
            || epsg == 23031 || projection_of(epsg)->0 is Utm,
{
}

/// Degrees are told from metres: what is in degrees is so in its unit too, and shows
/// more places.
pub proof fn law_units(p: Projection)
    ensures
        unit_name(p) == "deg"@ <==> p is Geographic,
        p is Geographic ==> places(p) == 8,
        p !is Geographic ==> 2 <= places(p) <= 3 && unit_name(p) == "m"@,
{
    reveal_strlit("deg");
    reveal_strlit("m");
    assert("deg"@.len() == 3 && "m"@.len() == 1);
}

} // verus!
