//! What is done with whole chunks: their sizes, crops, the order of
//! features and what goes together again when fragments are merged.

use vstd::prelude::*;

use crate::chunk;
use crate::chunk::{
    Band, BandModel, Chunk, Coord, FeatureGeometry, FeatureModel, GeometryModel, Placement, Point3,
    PointChunk, Polygon, PolygonModel, RasterChunk, TensorChunk, VectorChunk, VectorFeature,
};
use crate::geometry;
use crate::json;
use crate::json::Json;
use crate::window::Bbox;

verus! {

// Sizes.

/// What a feature is accounted without its properties: its identity and its
/// coordinates.
pub open spec fn shape_size(f: FeatureModel) -> nat {
    16 + geometry::coords_of(f.geometry).len() * 16
}

/// What a feature is accounted: its properties by as many bytes as they
/// take written.
pub open spec fn feature_size<W: Fn(&Vec<(String, Json)>) -> Vec<u8>>(w: W, f: FeatureModel) -> nat {
    shape_size(f) + json::written_by(w, f.properties).len()
}

/// What features are accounted without their properties.
pub open spec fn shapes_size(fs: Seq<FeatureModel>) -> nat
    decreases fs.len(),
{
    if fs.len() == 0 {
        0
    } else {
        shapes_size(fs.drop_last()) + shape_size(fs.last())
    }
}

pub open spec fn features_size<W: Fn(&Vec<(String, Json)>) -> Vec<u8>>(
    w: W,
    fs: Seq<FeatureModel>,
) -> nat
    decreases fs.len(),
{
    if fs.len() == 0 {
        0
    } else {
        features_size(w, fs.drop_last()) + feature_size(w, fs.last())
    }
}

/// What a chunk is accounted in memory, where a point takes `point_size`
/// bytes.
pub open spec fn chunk_size<W: Fn(&Vec<(String, Json)>) -> Vec<u8>>(
    w: W,
    c: Chunk,
    point_size: usize,
) -> nat {
    match c {
        Chunk::Raster(r) => (r.bands@.len() * (r.width * r.height) * 8) as nat,
        Chunk::PointCloud(p) => p.points@.len() * point_size as nat,
        Chunk::Vector(v) => features_size(w, chunk::features_model(v.features@)),
        Chunk::Tensor(t) => t.data@.len() * 4,
    }
}

impl RasterChunk {
    pub fn byte_size(&self) -> (n: usize)
        requires
            self.bands@.len() * (self.width * self.height) * 8 <= usize::MAX,
        ensures
            n == self.bands@.len() * (self.width * self.height) * 8,
    {
        let ghost samples = self.width * self.height;
        let ghost bands = self.bands@.len() as int;
        if self.bands.len() == 0 {
            assert(bands * samples * 8 == 0) by (nonlinear_arith)
                requires
                    bands == 0,
            ;
            return 0;
        }
        assert(0 <= samples <= bands * samples <= bands * samples * 8) by (nonlinear_arith)
            requires
                bands >= 1,
                samples == self.width * self.height,
        ;
        self.bands.len() * (self.width * self.height) * 8
    }
}

impl PointChunk {
    pub fn byte_size(&self, point_size: usize) -> (n: usize)
        requires
            self.points@.len() * point_size <= usize::MAX,
        ensures
            n == self.points@.len() * point_size,
    {
        self.points.len() * point_size
    }

    /// The points that a tile holds.
    pub fn crop_to(&self, bbox: &Bbox) -> (r: PointChunk)
        ensures
            r.points@ == self.points@.filter(
                |p: Point3| geometry::inside(*bbox, Coord { x: p.x, y: p.y }),
            ),
            r.place == (Placement { bbox: *bbox, ..self.place }),
    {
        let mut points: Vec<Point3> = Vec::new();
        keep_points(&self.points, bbox, &mut points);
        assert(points@ =~= self.points@.filter(
            |p: Point3| geometry::inside(*bbox, Coord { x: p.x, y: p.y }),
        ));
        PointChunk {
            points,
            place: Placement {
                bbox: *bbox,
                resolution: self.place.resolution,
                crs: self.place.crs,
            },
        }
    }
}

pub(crate) fn keep_points(points: &Vec<Point3>, bbox: &Bbox, out: &mut Vec<Point3>)
    ensures
        final(out)@ == old(out)@ + points@.filter(
            |p: Point3| geometry::inside(*bbox, Coord { x: p.x, y: p.y }),
        ),
{
    let ghost start = out@;
    let ghost pred = |p: Point3| geometry::inside(*bbox, Coord { x: p.x, y: p.y });
    proof {
        reveal(Seq::filter);
        assert(start =~= start + points@.take(0).filter(pred));
    }
    for i in 0..points.len()
        invariant
            pred == (|p: Point3| geometry::inside(*bbox, Coord { x: p.x, y: p.y })),
            out@ == start + points@.take(i as int).filter(pred),
    {
        proof {
            reveal(Seq::filter);
            assert(points@.take(i as int + 1).drop_last() =~= points@.take(i as int));
        }
        let p = points[i];
        if geometry::tile_contains(bbox, p.x, p.y) {
            out.push(p);
        }
        assert(out@ =~= start + points@.take(i as int + 1).filter(pred));
    }
    assert(points@.take(points@.len() as int) =~= points@);
}

proof fn sizes_grow<W: Fn(&Vec<(String, Json)>) -> Vec<u8>>(w: W, fs: Seq<FeatureModel>, i: int)
    requires
        0 <= i <= fs.len(),
    ensures
        features_size(w, fs.take(i)) <= features_size(w, fs),
    decreases fs.len(),
{
    if i < fs.len() {
        assert(fs.drop_last().take(i) =~= fs.take(i));
        sizes_grow(w, fs.drop_last(), i);
    } else {
        assert(fs.take(i) =~= fs);
    }
}

proof fn shapes_grow(fs: Seq<FeatureModel>, i: int)
    requires
        0 <= i <= fs.len(),
    ensures
        shapes_size(fs.take(i)) <= shapes_size(fs),
    decreases fs.len(),
{
    if i < fs.len() {
        assert(fs.drop_last().take(i) =~= fs.take(i));
        shapes_grow(fs.drop_last(), i);
    } else {
        assert(fs.take(i) =~= fs);
    }
}

impl VectorChunk {
    /// What the features are accounted, their properties written by the
    /// writing that is handed in.
    pub fn byte_size<W: Fn(&Vec<(String, Json)>) -> Vec<u8>>(&self, w: &W) -> (n: usize)
        requires
            json::is_writing(*w),
            features_size(*w, chunk::features_model(self.features@)) <= usize::MAX,
        ensures
            n == features_size(*w, chunk::features_model(self.features@)),
    {
        let ghost model = chunk::features_model(self.features@);
        let mut n: usize = 0;
        for i in 0..self.features.len()
            invariant
                json::is_writing(*w),
                model == chunk::features_model(self.features@),
                features_size(*w, model) <= usize::MAX,
                n == features_size(*w, model.take(i as int)),
        {
            proof {
                assert(model.take(i as int + 1).drop_last() =~= model.take(i as int));
                sizes_grow(*w, model, i as int + 1);
            }
            let f = &self.features[i];
            let properties: usize = json::write_members(w, &f.properties).len();
            n = n + 16 + geometry::geometry_coord_count(&f.geometry) * 16 + properties;
        }
        assert(model.take(model.len() as int) =~= model);
        n
    }

    /// Whether the accounts of all features together can be counted.
    fn can_be_counted<W: Fn(&Vec<(String, Json)>) -> Vec<u8>>(&self, w: &W) -> (r: bool)
        requires
            json::is_writing(*w),
            shapes_size(chunk::features_model(self.features@)) <= usize::MAX,
        ensures
            r == (features_size(*w, chunk::features_model(self.features@)) <= usize::MAX),
    {
        let ghost model = chunk::features_model(self.features@);
        let mut n: usize = 0;
        for i in 0..self.features.len()
            invariant
                json::is_writing(*w),
                model == chunk::features_model(self.features@),
                shapes_size(model) <= usize::MAX,
                n == features_size(*w, model.take(i as int)),
        {
            proof {
                assert(model.take(i as int + 1).drop_last() =~= model.take(i as int));
                sizes_grow(*w, model, i as int + 1);
                shapes_grow(model, i as int + 1);
            }
            let f = &self.features[i];
            let shape: usize = 16 + geometry::geometry_coord_count(&f.geometry) * 16;
            let properties: usize = json::write_members(w, &f.properties).len();
            n = match n.checked_add(shape) {
                Some(m) => match m.checked_add(properties) {
                    Some(m) => m,
                    None => {
                        return false;
                    },
                },
                None => {
                    return false;
                },
            };
        }
        assert(model.take(model.len() as int) =~= model);
        true
    }
}

/// What a chunk is accounted in memory without the properties of features.
pub open spec fn bare_size<W: Fn(&Vec<(String, Json)>) -> Vec<u8>>(
    w: W,
    c: Chunk,
    point_size: usize,
) -> nat {
    match c {
        Chunk::Vector(v) => shapes_size(chunk::features_model(v.features@)),
        _ => chunk_size(w, c, point_size),
    }
}

impl Chunk {
    /// What the chunk is accounted in memory.
    pub fn byte_size<W: Fn(&Vec<(String, Json)>) -> Vec<u8>>(
        &self,
        point_size: usize,
        w: &W,
    ) -> (n: usize)
        requires
            json::is_writing(*w),
            chunk_size(*w, *self, point_size) <= usize::MAX,
        ensures
            n == chunk_size(*w, *self, point_size),
    {
        match self {
            Chunk::Raster(r) => {
                assert(r.bands@.len() * (r.width * r.height) * 8 >= 0) by (nonlinear_arith);
                r.byte_size()
            },
            Chunk::PointCloud(p) => p.byte_size(point_size),
            Chunk::Vector(v) => v.byte_size(w),
            Chunk::Tensor(t) => t.byte_size(),
        }
    }

    /// What the chunk is accounted in memory, where that can be counted with
    /// the properties of its features.
    pub fn counted_size<W: Fn(&Vec<(String, Json)>) -> Vec<u8>>(
        &self,
        point_size: usize,
        w: &W,
    ) -> (n: Option<usize>)
        requires
            json::is_writing(*w),
            bare_size(*w, *self, point_size) <= usize::MAX,
        ensures
            n == (if chunk_size(*w, *self, point_size) <= usize::MAX {
                Some(chunk_size(*w, *self, point_size) as usize)
            } else {
                None
            }),
    {
        if let Chunk::Vector(v) = self {
            if !v.can_be_counted(w) {
                return None;
            }
        }
        Some(self.byte_size(point_size, w))
    }
}

// Crops.

/// How much of a wanted stretch lies inside an extent.
pub open spec fn fitted(extent: usize, start: usize, wanted: usize) -> usize {
    if start >= extent {
        0
    } else if wanted <= extent - start {
        wanted
    } else {
        (extent - start) as usize
    }
}

/// How much of a wanted stretch lies inside an extent.
pub fn fit(extent: usize, start: usize, wanted: usize) -> (r: usize)
    ensures
        r == fitted(extent, start, wanted),
{
    if start >= extent {
        0
    } else if wanted <= extent - start {
        wanted
    } else {
        extent - start
    }
}

/// A window of a plane, row by row.
pub open spec fn cut_out<T>(
    data: Seq<T>,
    width: int,
    col0: int,
    row0: int,
    cols: int,
    rows: int,
) -> Seq<T> {
    Seq::new(
        (cols * rows) as nat,
        |i: int| data[(row0 + i / cols) * width + col0 + i % cols],
    )
}

fn push_window<T: Copy>(
    data: &Vec<T>,
    base: usize,
    width: usize,
    height: usize,
    col0: usize,
    row0: usize,
    cols: usize,
    rows: usize,
    out: &mut Vec<T>,
)
    requires
        base + width * height <= data@.len(),
        cols == 0 || col0 + cols <= width,
        rows == 0 || row0 + rows <= height,
    ensures
        final(out)@ == old(out)@ + cut_out(
            data@.subrange(base as int, base + width * height),
            width as int,
            col0 as int,
            row0 as int,
            cols as int,
            rows as int,
        ),
{
    let ghost start = out@;
    let ghost plane = data@.subrange(base as int, base + width * height);
    let ghost want = cut_out(
        plane,
        width as int,
        col0 as int,
        row0 as int,
        cols as int,
        rows as int,
    );
    let len: usize = data.len();
    if cols == 0 || rows == 0 {
        assert(cols * rows == 0) by (nonlinear_arith)
            requires
                cols == 0 || rows == 0,
        ;
        assert(start + want =~= start);
        return ;
    }
    assert(0 * cols == 0);
    for r in 0..rows
        invariant
            len == data@.len(),
            base + width * height <= len,
            cols > 0,
            col0 + cols <= width,
            row0 + rows <= height,
            plane == data@.subrange(base as int, base + width * height),
            want == cut_out(
                plane,
                width as int,
                col0 as int,
                row0 as int,
                cols as int,
                rows as int,
            ),
            out@.len() == start.len() + r * cols,
            forall|k: int| 0 <= k < start.len() ==> out@[k] == start[k],
            forall|k: int| 0 <= k < r * cols ==> #[trigger] out@[start.len() + k] == want[k],
    {
        assert((row0 + r) * width + width <= width * height) by (nonlinear_arith)
            requires
                row0 + r + 1 <= height,
        ;
        assert((r + 1) * cols == r * cols + cols && (r + 1) * cols <= cols * rows) by (
        nonlinear_arith)
            requires
                r + 1 <= rows,
        ;
        let at: usize = base + (row0 + r) * width + col0;
        for c in 0..cols
            invariant
                len == data@.len(),
                base + width * height <= len,
                cols > 0,
                r < rows,
                col0 + cols <= width,
                (row0 + r) * width + width <= width * height,
                r * cols + cols <= cols * rows,
                at == base + (row0 + r) * width + col0,
                plane == data@.subrange(base as int, base + width * height),
                want == cut_out(
                    plane,
                    width as int,
                    col0 as int,
                    row0 as int,
                    cols as int,
                    rows as int,
                ),
                out@.len() == start.len() + r * cols + c,
                forall|k: int| 0 <= k < start.len() ==> out@[k] == start[k],
                forall|k: int|
                    0 <= k < r * cols + c ==> #[trigger] out@[start.len() + k] == want[k],
        {
            out.push(data[at + c]);
            proof {
                let k = r * cols + c;
                vstd::arithmetic::div_mod::lemma_fundamental_div_mod_converse(
                    k,
                    cols as int,
                    r as int,
                    c as int,
                );
                assert(want[k] == plane[(row0 + r) * width + col0 + c]);
            }
        }
    }
    assert(rows * cols == cols * rows) by (nonlinear_arith);
    assert(out@ =~= start + want) by {
        assert forall|k: int| 0 <= k < out@.len() implies out@[k] == (start + want)[k] by {
            if k >= start.len() {
                assert(out@[start.len() + (k - start.len())] == want[k - start.len()]);
            }
        }
    }
}

/// A band cut to a window.
pub open spec fn cropped_band(
    b: BandModel,
    width: int,
    col0: int,
    row0: int,
    cols: int,
    rows: int,
) -> BandModel {
    BandModel { nodata: b.nodata, data: cut_out(b.data, width, col0, row0, cols, rows) }
}

impl RasterChunk {
    /// The part of the raster from a pixel on, as far as it reaches.
    /// `place` is where that part lies.
    pub fn crop_to(
        &self,
        col0: usize,
        row0: usize,
        cols: usize,
        rows: usize,
        place: Placement,
    ) -> (r: RasterChunk)
        requires
            self.wf(),
        ensures
            r.wf(),
            r.place == place,
            r.width == fitted(self.width, col0, cols),
            r.height == fitted(self.height, row0, rows),
            chunk::bands_model(r.bands@) == Seq::new(
                self.bands@.len(),
                |i: int|
                    cropped_band(
                        self.bands@[i]@,
                        self.width as int,
                        col0 as int,
                        row0 as int,
                        r.width as int,
                        r.height as int,
                    ),
            ),
    {
        let width: usize = fit(self.width, col0, cols);
        let height: usize = fit(self.height, row0, rows);
        let ghost want = Seq::new(
            self.bands@.len(),
            |i: int|
                cropped_band(
                    self.bands@[i]@,
                    self.width as int,
                    col0 as int,
                    row0 as int,
                    width as int,
                    height as int,
                ),
        );
        assert(width * height >= 0) by (nonlinear_arith);
        let mut bands: Vec<Band> = Vec::new();
        for i in 0..self.bands.len()
            invariant
                self.wf(),
                width == fitted(self.width, col0, cols),
                height == fitted(self.height, row0, rows),
                width * height >= 0,
                bands@.len() == i,
                forall|k: int|
                    0 <= k < i ==> (#[trigger] bands@[k])@ == cropped_band(
                        self.bands@[k]@,
                        self.width as int,
                        col0 as int,
                        row0 as int,
                        width as int,
                        height as int,
                    ),
        {
            let b = &self.bands[i];
            assert(b.data@.len() == self.width * self.height);
            let mut data = Vec::new();
            push_window(
                &b.data,
                0,
                self.width,
                self.height,
                col0,
                row0,
                width,
                height,
                &mut data,
            );
            assert(b.data@.subrange(0, self.width * self.height) =~= b.data@);
            assert(data@ =~= cut_out(
                b.data@,
                self.width as int,
                col0 as int,
                row0 as int,
                width as int,
                height as int,
            ));
            bands.push(Band { nodata: b.nodata, data });
        }
        let r = RasterChunk { width, height, bands, place };
        assert(chunk::bands_model(r.bands@) =~= want);
        assert(r.wf()) by {
            assert forall|i: int| 0 <= i < r.bands@.len() implies (
            #[trigger] r.bands@[i]).data@.len() == r.width * r.height by {
                assert(r.bands@[i]@.data.len() == width * height);
            }
        }
        r
    }
}

/// The plane of a channel.
pub open spec fn plane_of(data: Seq<u32>, c: int, size: int) -> Seq<u32> {
    data.subrange(c * size, c * size + size)
}

/// The first `n` channels, each cut to a window.
pub open spec fn cropped_channels(
    data: Seq<u32>,
    n: int,
    width: int,
    height: int,
    col0: int,
    row0: int,
    cols: int,
    rows: int,
) -> Seq<u32>
    decreases n,
{
    if n <= 0 {
        Seq::empty()
    } else {
        cropped_channels(data, n - 1, width, height, col0, row0, cols, rows) + cut_out(
            plane_of(data, n - 1, width * height),
            width,
            col0,
            row0,
            cols,
            rows,
        )
    }
}

pub(crate) proof fn channels_fit(c: int, channels: int, size: int)
    requires
        0 <= c < channels,
        0 <= size,
    ensures
        c * size + size <= channels * size,
        0 <= c * size,
{
    assert(c * size + size <= channels * size && 0 <= c * size) by (nonlinear_arith)
        requires
            0 <= c < channels,
            0 <= size,
    ;
}

impl TensorChunk {
    pub fn byte_size(&self) -> (n: usize)
        requires
            self.data@.len() * 4 <= usize::MAX,
        ensures
            n == self.data@.len() * 4,
    {
        self.data.len() * 4
    }

    /// The plane of one channel.
    pub fn channel(&self, c: usize) -> (r: Vec<u32>)
        requires
            self.wf(),
            c < self.channels,
        ensures
            r@ == plane_of(self.data@, c as int, self.width * self.height),
    {
        let len: usize = self.data.len();
        assert(self.width * self.height >= 0) by (nonlinear_arith);
        proof {
            channels_fit(c as int, self.channels as int, self.width * self.height);
        }
        let size: usize = self.width * self.height;
        let base: usize = c * size;
        let mut r: Vec<u32> = Vec::new();
        for i in 0..size
            invariant
                len == self.data@.len(),
                base + size <= len,
                r@ == self.data@.subrange(base as int, base + i),
        {
            r.push(self.data[base + i]);
            assert(r@ =~= self.data@.subrange(base as int, base + i + 1));
        }
        r
    }

    /// The part of the tensor from a pixel on, as far as it reaches.
    /// `place` is where that part lies.
    pub fn crop_to(
        &self,
        col0: usize,
        row0: usize,
        cols: usize,
        rows: usize,
        place: Placement,
    ) -> (r: TensorChunk)
        requires
            self.wf(),
        ensures
            r.wf(),
            r.place == place,
            r.channels == self.channels,
            r.width == fitted(self.width, col0, cols),
            r.height == fitted(self.height, row0, rows),
            r.data@ == cropped_channels(
                self.data@,
                self.channels as int,
                self.width as int,
                self.height as int,
                col0 as int,
                row0 as int,
                r.width as int,
                r.height as int,
            ),
    {
        let width: usize = fit(self.width, col0, cols);
        let height: usize = fit(self.height, row0, rows);
        let ghost size = self.width * self.height;
        let ghost part = width * height;
        assert(size >= 0 && part >= 0) by (nonlinear_arith)
            requires
                size == self.width * self.height,
                part == width * height,
        ;
        let mut data: Vec<u32> = Vec::new();
        assert(0 * size == 0);
        assert(0 * part == 0);
        let n: usize = self.channels as usize;
        let mut base: usize = 0;
        for c in 0..n
            invariant
                self.wf(),
                n == self.channels,
                size == self.width * self.height,
                size >= 0,
                part == width * height,
                part >= 0,
                width == fitted(self.width, col0, cols),
                height == fitted(self.height, row0, rows),
                c < n ==> base == c * size,
                data@.len() == c * part,
                data@ == cropped_channels(
                    self.data@,
                    c as int,
                    self.width as int,
                    self.height as int,
                    col0 as int,
                    row0 as int,
                    width as int,
                    height as int,
                ),
        {
            let len: usize = self.data.len();
            proof {
                channels_fit(c as int, self.channels as int, size);
            }
            push_window(
                &self.data,
                base,
                self.width,
                self.height,
                col0,
                row0,
                width,
                height,
                &mut data,
            );
            assert((c + 1) * part == c * part + part && (c + 1) * size == c * size + size) by (
            nonlinear_arith);
            if c + 1 < n {
                base = base + self.width * self.height;
            }
        }
        TensorChunk { channels: self.channels, width, height, data, place }
    }
}

} // verus!
