//! Catalogue searches: the query, the pages of its answer, and which of
//! the items found serve a pull.

use vstd::prelude::*;

use crate::json;
use crate::json::{Json, JsonModel};
use crate::number::Real;
use crate::rfc3339;
use crate::search_cache::{SearchCache, SearchKey};
use crate::text;
use crate::window::{Bbox, TimeInterval};

verus! {

/// The most cold block searches that one pull may trigger.
pub const MAX_BLOCK_SEARCHES: usize = 32;

/// The most features that one search may gather over its pages.
pub const MAX_SEARCH_ITEMS: usize = 1000;

/// The readers that an item keeps per asset between reads.
pub const POOLED_READERS_PER_ASSET: usize = 4;

/// The item reads in flight over all pulls, and the size of a wave.
pub const MAX_PARALLEL_ITEM_READS: usize = 64;

/// The items that a page holds unless a search says otherwise.
pub const DEFAULT_LIMIT: u32 = 100;

/// How a pull combines the items that cover a window.
#[derive(Clone, Copy, Debug, PartialEq, Eq, Structural)]
pub enum Composite {
    /// The most recent item wins each pixel, older ones fill its gaps.
    Latest,
    Mean,
    Median,
    Min,
    Max,
    /// The value at this percent of the sorted stack.
    Percentile(Real),
    StdDev,
    Count,
}

impl Default for Composite {
    fn default() -> (r: Self)
        ensures
            r == Composite::Latest,
    {
        Composite::Latest
    }
}

/// A search of a catalogue.
#[derive(Debug)]
pub struct StacSearch {
    pub api: String,
    pub collection: String,
    /// The assets that hold the rasters; an item without one of them does
    /// not count.
    pub assets: Vec<String>,
    /// The longitudes and latitudes that anchor the grid.
    pub bbox: Bbox,
    /// An instant or interval, as the catalogue takes it.
    pub datetime: Option<String>,
    pub limit: u32,
    pub composite: Composite,
}

impl StacSearch {
    /// A search for one asset.
    pub fn new(api: &str, collection: &str, asset: &str, bbox: Bbox) -> (r: StacSearch)
        ensures
            r.api@ == api@,
            r.collection@ == collection@,
            r.assets@.len() == 1,
            r.assets@[0]@ == asset@,
            r.bbox == bbox,
            r.datetime is None,
            r.limit == DEFAULT_LIMIT,
            r.composite == Composite::Latest,
    {
        let mut assets: Vec<String> = Vec::new();
        assets.push(String::from_str(asset));
        StacSearch {
            api: String::from_str(api),
            collection: String::from_str(collection),
            assets,
            bbox,
            datetime: None,
            limit: DEFAULT_LIMIT,
            composite: Composite::Latest,
        }
    }
}

/// The address at which an object named `s3://bucket/key` is read; any
/// other name is an address already.
pub open spec fn https_of(href: Seq<char>) -> Seq<char> {
    let rest = href.skip(5);
    let slash = rfc3339::place_of(rest, '/', 0);
    if href.len() >= 5 && href.take(5) == "s3://"@ && slash < rest.len() {
        "https://"@ + rest.take(slash) + ".s3.amazonaws.com/"@ + rest.skip(slash + 1)
    } else {
        href
    }
}

/// The address at which an object is read.
pub fn s3_to_https(href: &str) -> (r: String)
    ensures
        r@ == https_of(href@),
{
    proof {
        reveal_strlit("s3://");
    }
    let n: usize = href.unicode_len();
    if n < 5 {
        return String::from_str(href);
    }
    let head = href.substring_char(0, 5);
    assert(head@ =~= href@.take(5));
    if !text::same_text(head, "s3://") {
        return String::from_str(href);
    }
    let rest = href.substring_char(5, n);
    assert(rest@ =~= href@.skip(5));
    let cs = text::chars_of(rest);
    let slash: usize = rfc3339::find_char(&cs, '/');
    if slash >= cs.len() {
        return String::from_str(href);
    }
    let bucket = rest.substring_char(0, slash);
    let key = rest.substring_char(slash + 1, cs.len());
    assert(bucket@ =~= rest@.take(slash as int));
    assert(key@ =~= rest@.skip(slash + 1));
    let mut r = text::joined("https://", bucket);
    r.append(".s3.amazonaws.com/");
    r.append(key);
    r
}

/// The query of a search over a box whose numbers are already written out.
pub open spec fn query(
    api: Seq<char>,
    collection: Seq<char>,
    corners: Seq<Seq<char>>,
    limit: u32,
    datetime: Option<Seq<char>>,
) -> Seq<char> {
    api + "/search?collections="@ + collection + "&bbox="@ + corners[0] + ","@ + corners[1] + ","@
        + corners[2] + ","@ + corners[3] + "&limit="@ + text::decimal(limit as nat) + (
    match datetime {
        Some(t) => "&datetime="@ + t,
        None => Seq::empty(),
    })
}

/// The interval that a search sends: the pull's own where it has one.
pub open spec fn sent_datetime(search: StacSearch, time: Option<TimeInterval>) -> Option<Seq<char>> {
    match time {
        Some(t) => Some(
            rfc3339::timestamp_text(t.start_ms as int) + "/"@ + rfc3339::timestamp_text(
                t.end_ms as int,
            ),
        ),
        None => match search.datetime {
            Some(d) => Some(d@),
            None => None,
        },
    }
}

/// The address of the first page of a search. `corners` are the least
/// longitude and latitude, then the greatest, written out.
pub fn search_url(
    search: &StacSearch,
    corners: &Vec<String>,
    time: Option<TimeInterval>,
) -> (r: String)
    requires
        corners@.len() == 4,
    ensures
        r@ == query(
            search.api@,
            search.collection@,
            Seq::new(4, |i: int| corners@[i]@),
            search.limit,
            sent_datetime(*search, time),
        ),
{
    let mut r = String::from_str(search.api.as_str());
    r.append("/search?collections=");
    r.append(search.collection.as_str());
    r.append("&bbox=");
    r.append(corners[0].as_str());
    r.append(",");
    r.append(corners[1].as_str());
    r.append(",");
    r.append(corners[2].as_str());
    r.append(",");
    r.append(corners[3].as_str());
    r.append("&limit=");
    r.append(text::decimal_text(search.limit as u64).as_str());
    let ghost head = r@;
    match time {
        Some(t) => {
            r.append("&datetime=");
            r.append(t.to_stac_datetime().as_str());
        },
        None => match &search.datetime {
            Some(d) => {
                r.append("&datetime=");
                r.append(d.as_str());
            },
            None => {},
        },
    }
    assert(r@ =~= head + (match sent_datetime(*search, time) {
        Some(t) => "&datetime="@ + t,
        None => Seq::empty(),
    }));
    r
}

/// An item of a page.
#[derive(Debug)]
pub struct Found {
    /// One address per asset.
    pub hrefs: Vec<String>,
    pub datetime: String,
    /// The footprint in longitude and latitude.
    pub bbox: Bbox,
    /// The code of the item's reference system, zero where it names none.
    pub epsg: u32,
    /// The band count that each asset declares, where it does.
    pub bands: Vec<Option<u16>>,
}

/// What a [`Found`] says.
#[verifier::ext_equal]
pub struct FoundModel {
    pub hrefs: Seq<Seq<char>>,
    pub datetime: Seq<char>,
    pub bbox: Bbox,
    pub epsg: u32,
    pub bands: Seq<Option<u16>>,
}

/// What a list of texts is.
pub open spec fn texts(v: Seq<String>) -> Seq<Seq<char>> {
    Seq::new(v.len(), |i: int| v[i]@)
}

impl View for Found {
    type V = FoundModel;

    open spec fn view(&self) -> FoundModel {
        FoundModel {
            hrefs: texts(self.hrefs@),
            datetime: self.datetime@,
            bbox: self.bbox,
            epsg: self.epsg,
            bands: self.bands@,
        }
    }
}

/// An asset of a feature.
pub open spec fn asset_of(f: JsonModel, asset: Seq<char>) -> Option<JsonModel> {
    json::member_of(f.member("assets"@), asset)
}

pub open spec fn href_of(f: JsonModel, asset: Seq<char>) -> Option<Seq<char>> {
    json::text_of(json::member_of(asset_of(f, asset), "href"@))
}

/// The addresses of the first `n` assets, where the feature has them all.
pub open spec fn hrefs_of(f: JsonModel, assets: Seq<Seq<char>>, n: int) -> Option<Seq<Seq<char>>>
    decreases n,
{
    if n <= 0 {
        Some(Seq::empty())
    } else {
        match (hrefs_of(f, assets, n - 1), href_of(f, assets[n - 1])) {
            (Some(before), Some(h)) => Some(before.push(https_of(h))),
            _ => None,
        }
    }
}

/// The numbers among the first `n` values of a list.
pub open spec fn numbers_of(v: Seq<JsonModel>, n: int) -> Seq<Real>
    decreases n,
{
    if n <= 0 {
        Seq::empty()
    } else {
        let before = numbers_of(v, n - 1);
        match json::real_of(Some(v[n - 1])) {
            Some(r) => before.push(r),
            None => before,
        }
    }
}

/// The numbers of a feature's footprint.
pub open spec fn footprint_of(f: JsonModel) -> Seq<Real> {
    match json::list_of(f.member("bbox"@)) {
        Some(v) => numbers_of(v, v.len() as int),
        None => Seq::empty(),
    }
}

/// The first asset from the `i`-th on that names a reference system.
pub open spec fn asset_epsg(f: JsonModel, assets: Seq<Seq<char>>, i: int) -> Option<u64>
    decreases assets.len() - i,
{
    if i >= assets.len() {
        None
    } else {
        match json::uint_of(json::member_of(asset_of(f, assets[i]), "proj:epsg"@)) {
            Some(n) => Some(n),
            None => asset_epsg(f, assets, i + 1),
        }
    }
}

/// The code of a feature's reference system: its own, else that of its
/// first asset that names one, else zero.
pub open spec fn epsg_of(f: JsonModel, assets: Seq<Seq<char>>) -> u32 {
    match json::uint_of(json::member_of(f.member("properties"@), "proj:epsg"@)) {
        Some(n) => n as u32,
        None => match asset_epsg(f, assets, 0) {
            Some(n) => n as u32,
            None => 0,
        },
    }
}

/// How many bands an asset declares, where it does.
pub open spec fn declared_bands(f: JsonModel, asset: Seq<char>) -> Option<u16> {
    let raster = json::list_of(json::member_of(asset_of(f, asset), "raster:bands"@));
    let spectral = json::list_of(json::member_of(asset_of(f, asset), "eo:bands"@));
    let list = if raster is Some {
        raster
    } else {
        spectral
    };
    match list {
        Some(v) => if v.len() <= 0xffff {
            Some(v.len() as u16)
        } else {
            None
        },
        None => None,
    }
}

/// What a feature says of an item: nothing unless it has every asset and a
/// footprint.
pub open spec fn found_in(f: JsonModel, assets: Seq<Seq<char>>) -> Option<FoundModel> {
    let corners = footprint_of(f);
    match hrefs_of(f, assets, assets.len() as int) {
        None => None,
        Some(hrefs) => if corners.len() < 4 {
            None
        } else {
            Some(
                FoundModel {
                    hrefs,
                    datetime: match json::text_of(
                        json::member_of(f.member("properties"@), "datetime"@),
                    ) {
                        Some(t) => t,
                        None => Seq::empty(),
                    },
                    bbox: Bbox {
                        min_x: corners[0],
                        min_y: corners[1],
                        max_x: corners[2],
                        max_y: corners[3],
                    },
                    epsg: epsg_of(f, assets),
                    bands: Seq::new(assets.len(), |i: int| declared_bands(f, assets[i])),
                },
            )
        },
    }
}

proof fn missing_asset(f: JsonModel, assets: Seq<Seq<char>>, i: int, n: int)
    requires
        0 <= i < n,
        hrefs_of(f, assets, i + 1) is None,
    ensures
        hrefs_of(f, assets, n) is None,
    decreases n,
{
    if i + 1 < n {
        missing_asset(f, assets, i, n - 1);
    }
}

/// Read an item out of a feature.
pub fn parse_found(f: &Json, assets: &Vec<String>) -> (r: Option<Found>)
    ensures
        match found_in(f@, texts(assets@)) {
            Some(m) => r matches Some(x) && x@ == m,
            None => r is None,
        },
{
    let ghost names = texts(assets@);
    let listed = json::member(Some(f), "assets");
    let properties = json::member(Some(f), "properties");
    let n: usize = assets.len();
    let mut hrefs: Vec<String> = Vec::new();
    assert(texts(hrefs@) =~= Seq::empty());
    for i in 0..n
        invariant
            n == assets@.len(),
            names == texts(assets@),
            json::seen(listed) == f@.member("assets"@),
            hrefs_of(f@, names, i as int) == Some(texts(hrefs@)),
    {
        let asset = json::member(listed, assets[i].as_str());
        match json::as_text(json::member(asset, "href")) {
            Some(h) => {
                let ghost before = texts(hrefs@);
                let address = s3_to_https(h.as_str());
                let ghost added = address@;
                hrefs.push(address);
                assert(texts(hrefs@) =~= before.push(added));
            },
            None => {
                proof {
                    missing_asset(f@, names, i as int, n as int);
                }
                return None;
            },
        }
    }
    let datetime: String = match json::as_text(json::member(properties, "datetime")) {
        Some(t) => String::from_str(t.as_str()),
        None => String::new(),
    };
    let mut corners: Vec<Real> = Vec::new();
    if let Some(v) = json::as_list(json::member(Some(f), "bbox")) {
        let ghost list = json::list_model(v@);
        for i in 0..v.len()
            invariant
                list == json::list_model(v@),
                corners@ == numbers_of(list, i as int),
        {
            assert(list[i as int] == v@[i as int]@);
            if let Some(x) = json::as_real(Some(&v[i])) {
                corners.push(x);
            }
        }
    }
    assert(corners@ =~= footprint_of(f@));
    if corners.len() < 4 {
        return None;
    }
    let mut epsg: Option<u64> = json::as_uint(json::member(properties, "proj:epsg"));
    if epsg.is_none() {
        let mut i: usize = 0;
        while i < n && epsg.is_none()
            invariant
                i <= n,
                n == assets@.len(),
                names == texts(assets@),
                json::seen(listed) == f@.member("assets"@),
                epsg is None ==> asset_epsg(f@, names, 0) == asset_epsg(f@, names, i as int),
                epsg is Some ==> asset_epsg(f@, names, 0) == epsg,
            decreases n - i,
        {
            let asset = json::member(listed, assets[i].as_str());
            epsg = json::as_uint(json::member(asset, "proj:epsg"));
            i = i + 1;
        }
        if epsg.is_none() {
            assert(asset_epsg(f@, names, n as int) is None);
        }
    }
    let mut bands: Vec<Option<u16>> = Vec::new();
    for i in 0..n
        invariant
            n == assets@.len(),
            names == texts(assets@),
            json::seen(listed) == f@.member("assets"@),
            bands@ == Seq::new(i as nat, |k: int| declared_bands(f@, names[k])),
    {
        let asset = json::member(listed, assets[i].as_str());
        let list = match json::as_list(json::member(asset, "raster:bands")) {
            Some(v) => Some(v),
            None => json::as_list(json::member(asset, "eo:bands")),
        };
        let count: Option<u16> = match list {
            Some(v) => if v.len() <= 0xffff {
                Some(v.len() as u16)
            } else {
                None
            },
            None => None,
        };
        bands.push(count);
        assert(count == declared_bands(f@, names[i as int]));
        assert(bands@ =~= Seq::new((i + 1) as nat, |k: int| declared_bands(f@, names[k])));
    }
    let r = Found {
        hrefs,
        datetime,
        bbox: Bbox {
            min_x: corners[0],
            min_y: corners[1],
            max_x: corners[2],
            max_y: corners[3],
        },
        epsg: match epsg {
            Some(n) => n as u32,
            None => 0,
        },
        bands,
    };
    assert(r@ == found_in(f@, names)->0);
    Some(r)
}

// Pages.

/// Why a page ends a search.
#[derive(Debug)]
pub enum PageFault {
    /// The answer is no JSON.
    InvalidJson(String),
    /// The answer has no features.
    NoFeatures,
    /// The pages so far hold too many features.
    TooMany,
}

/// The items of the first `n` features.
pub open spec fn items_of(fs: Seq<JsonModel>, assets: Seq<Seq<char>>, n: int) -> Seq<FoundModel>
    decreases n,
{
    if n <= 0 {
        Seq::empty()
    } else {
        let before = items_of(fs, assets, n - 1);
        match found_in(fs[n - 1], assets) {
            Some(m) => before.push(m),
            None => before,
        }
    }
}

/// The first link from the `i`-th on that leads to the next page.
pub open spec fn next_link(links: Seq<JsonModel>, i: int) -> Option<Seq<char>>
    decreases links.len() - i,
{
    if i >= links.len() {
        None
    } else if json::text_of(links[i].member("rel"@)) == Some("next"@) {
        json::text_of(links[i].member("href"@))
    } else {
        next_link(links, i + 1)
    }
}

/// Where the next page is, if there is one.
pub open spec fn next_page(body: JsonModel) -> Option<Seq<char>> {
    match json::list_of(body.member("links"@)) {
        Some(links) => next_link(links, 0),
        None => None,
    }
}

/// What a search has gathered so far.
#[derive(Debug)]
pub struct SearchState {
    pub found: Vec<Found>,
    pub seen: usize,
}

/// What a list of items is.
pub open spec fn founds(v: Seq<Found>) -> Seq<FoundModel> {
    Seq::new(v.len(), |i: int| v[i]@)
}

impl SearchState {
    pub fn new() -> (r: Self)
        ensures
            r.found@.len() == 0,
            r.seen == 0,
    {
        SearchState { found: Vec::new(), seen: 0 }
    }

    /// Take a page in: its items are gathered, and the address of the next
    /// page comes back, if there is one.
    pub fn take_page(&mut self, body: &Json, assets: &Vec<String>) -> (r: Result<
        Option<String>,
        PageFault,
    >)
        requires
            old(self).seen <= MAX_SEARCH_ITEMS,
        ensures
            match json::list_of(body@.member("features"@)) {
                None => r matches Err(e) && e is NoFeatures && *final(self) == *old(self),
                Some(fs) => if old(self).seen + fs.len() > MAX_SEARCH_ITEMS {
                    r matches Err(e) && e is TooMany && *final(self) == *old(self)
                } else {
                    &&& final(self).seen == old(self).seen + fs.len()
                    &&& founds(final(self).found@) == founds(old(self).found@) + items_of(
                        fs,
                        texts(assets@),
                        fs.len() as int,
                    )
                    &&& r matches Ok(next) && (match next_page(body@) {
                        Some(url) => next matches Some(u) && u@ == url,
                        None => next is None,
                    })
                },
            },
    {
        let ghost start = founds(self.found@);
        let ghost names = texts(assets@);
        let features = match json::as_list(json::member(Some(body), "features")) {
            Some(v) => v,
            None => {
                return Err(PageFault::NoFeatures);
            },
        };
        let n: usize = features.len();
        if n > MAX_SEARCH_ITEMS - self.seen {
            return Err(PageFault::TooMany);
        }
        let ghost fs = json::list_model(features@);
        let ghost seen = self.seen;
        self.seen = self.seen + n;
        assert(start =~= start + items_of(fs, names, 0));
        for i in 0..n
            invariant
                n == features@.len(),
                names == texts(assets@),
                fs == json::list_model(features@),
                self.seen == seen + n,
                founds(self.found@) == start + items_of(fs, names, i as int),
        {
            let ghost before = founds(self.found@);
            assert(fs[i as int] == features@[i as int]@);
            if let Some(x) = parse_found(&features[i], assets) {
                let ghost added = x@;
                self.found.push(x);
                assert(founds(self.found@) =~= before.push(added));
                assert(founds(self.found@) =~= start + items_of(fs, names, i + 1));
            }
        }
        proof {
            reveal_strlit("next");
        }
        let links = match json::as_list(json::member(Some(body), "links")) {
            Some(v) => v,
            None => {
                return Ok(None);
            },
        };
        let ghost ls = json::list_model(links@);
        for i in 0..links.len()
            invariant
                ls == json::list_model(links@),
                next_page(body@) == next_link(ls, i as int),
                json::list_of(body@.member("features"@)) == Some(fs),
                old(self).seen + fs.len() <= MAX_SEARCH_ITEMS,
                start == founds(old(self).found@),
                names == texts(assets@),
                self.seen == old(self).seen + fs.len(),
                founds(self.found@) == start + items_of(fs, names, fs.len() as int),
        {
            let link = &links[i];
            assert(ls[i as int] == link@);
            let is_next: bool = match json::as_text(json::member(Some(link), "rel")) {
                Some(t) => text::same_text(t.as_str(), "next"),
                None => false,
            };
            if is_next {
                return match json::as_text(json::member(Some(link), "href")) {
                    Some(h) => Ok(Some(String::from_str(h.as_str()))),
                    None => Ok(None),
                };
            }
        }
        Ok(None)
    }

    /// Take the answer to a query in, as it came over the wire.
    pub fn take_answer(&mut self, raw: &Vec<u8>, assets: &Vec<String>) -> (r: Result<
        Option<String>,
        PageFault,
    >)
        requires
            old(self).seen <= MAX_SEARCH_ITEMS,
        ensures
            match json::json_of(raw@) {
                Err(e) => r matches Err(PageFault::InvalidJson(m)) && m@ == e && *final(self)
                    == *old(self),
                Ok(body) => match json::list_of(body.member("features"@)) {
                    None => r matches Err(e) && e is NoFeatures && *final(self) == *old(self),
                    Some(fs) => if old(self).seen + fs.len() > MAX_SEARCH_ITEMS {
                        r matches Err(e) && e is TooMany && *final(self) == *old(self)
                    } else {
                        &&& final(self).seen == old(self).seen + fs.len()
                        &&& founds(final(self).found@) == founds(old(self).found@) + items_of(
                            fs,
                            texts(assets@),
                            fs.len() as int,
                        )
                        &&& r matches Ok(next) && (match next_page(body) {
                            Some(url) => next matches Some(u) && u@ == url,
                            None => next is None,
                        })
                    },
                },
            },
    {
        match json::parse(raw) {
            Err(e) => Err(PageFault::InvalidJson(e)),
            Ok(body) => self.take_page(&body, assets),
        }
    }
}

} // verus!
