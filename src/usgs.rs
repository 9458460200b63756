use vstd::prelude::*;

verus! {

/// The kind of linked data that the NLDI service offers for a gauge site.
#[derive(Clone, Copy, PartialEq, Eq, Structural, Debug)]
pub enum GeoInfo {
    Upstream,
    Downstream,
    Tributories,
    Basin,
}

/// The path segment of the service for each kind of data.
pub open spec fn abbr_of(g: GeoInfo) -> Seq<char> {
    match g {
        GeoInfo::Upstream => "navigate/UM"@,
        GeoInfo::Downstream => "navigate/DM"@,
        GeoInfo::Tributories => "navigate/UT"@,
        GeoInfo::Basin => "basin"@,
    }
}

pub open spec fn url_of(g: GeoInfo, site: Seq<char>) -> Seq<char> {
    "https://labs.waterdata.usgs.gov/api/nldi/linked-data/nwissite/USGS-"@ + site + "/"@
        + abbr_of(g) + "?f=json"@
}

impl GeoInfo {
    pub fn usgs_abbr(&self) -> (r: &'static str)
        ensures
            r@ == abbr_of(*self),
    {
        match self {
            GeoInfo::Upstream => "navigate/UM",
            GeoInfo::Downstream => "navigate/DM",
            GeoInfo::Tributories => "navigate/UT",
            GeoInfo::Basin => "basin",
        }
    }

    pub fn usgs_url(&self, site_no: &str) -> (r: String)
        ensures
            r@ == url_of(*self, site_no@),
    {
        let mut s = String::from_str("https://labs.waterdata.usgs.gov/api/nldi/linked-data/nwissite/USGS-");
        s.append(site_no);
        s.append("/");
        s.append(self.usgs_abbr());
        s.append("?f=json");
        s
    }
}

} // verus!
