use geoplumb::bandwise::{AlgebraOp, BandFault, Cut, MapAlgebra};
use geoplumb::caps::Crs;
use geoplumb::chunk::{Band, Placement, RasterChunk};
use geoplumb::config::{BinaryOpConfig, ClassRange, UnaryOpConfig};
use geoplumb::elements::{Aspect, Combine, Focal, FocalOp, Hillshade, Slope};
use geoplumb::number::Real;
use geoplumb::window::Bbox;

fn num(v: f64) -> Real {
    Real::from_bits(v.to_bits())
}

fn value(v: Real) -> f64 {
    f64::from_bits(v.to_bits())
}

fn band(data: &[f64]) -> Band {
    Band { nodata: num(-1.0), data: data.iter().map(|v| num(*v)).collect() }
}

fn values(b: &Band) -> Vec<f64> {
    b.data.iter().map(|v| value(*v)).collect()
}

fn place() -> Placement {
    Placement {
        bbox: Bbox::new(num(0.0), num(0.0), num(7.0), num(7.0)),
        resolution: num(1.0),
        crs: Crs(3857),
    }
}

fn raster(width: usize, height: usize, bands: Vec<Band>) -> RasterChunk {
    RasterChunk { width, height, bands, place: place() }
}

fn cut(col0: usize, row0: usize, cols: usize, rows: usize) -> Cut {
    Cut { col0, row0, cols, rows, place: place() }
}

/// The sum of the cells up to `reach` away.
fn around(r: &RasterChunk, b: usize, reach: usize) -> Band {
    let mut data = Vec::new();
    for row in 0..r.height {
        for col in 0..r.width {
            let mut sum = 0.0;
            for y in row.saturating_sub(reach)..(row + reach + 1).min(r.height) {
                for x in col.saturating_sub(reach)..(col + reach + 1).min(r.width) {
                    sum += value(r.bands[b].data[y * r.width + x]);
                }
            }
            data.push(num(sum));
        }
    }
    Band { nodata: num(-1.0), data }
}

fn hills() -> RasterChunk {
    let data: Vec<f64> = (0..49).map(|p| f64::from((p * p) % 11)).collect();
    raster(7, 7, vec![band(&data)])
}

/// A window of a raster.
fn tile(whole: &RasterChunk, col0: usize, row0: usize, cols: usize, rows: usize) -> RasterChunk {
    whole.crop_to(col0, row0, cols, rows, place())
}

#[test]
fn shades_of_tiles_show_no_seam() {
    let whole = hills();
    let kernel = |h: &Hillshade, r: &RasterChunk, b: usize| -> Result<Band, String> {
        let mut made = around(r, b, 2);
        for v in &mut made.data {
            *v = num(value(*v) * value(h.altitude));
        }
        Ok(made)
    };
    let shade = Hillshade::new(num(315.0), num(45.0));
    let left = shade.compute(&kernel, &tile(&whole, 0, 0, 5, 7), cut(0, 0, 3, 7)).unwrap();
    let right = shade.compute(&kernel, &tile(&whole, 1, 0, 6, 7), cut(2, 0, 4, 7)).unwrap();
    let first = shade.compute(&kernel, &whole, cut(0, 0, 3, 7)).unwrap();
    let second = shade.compute(&kernel, &whole, cut(3, 0, 4, 7)).unwrap();
    assert_eq!(values(&left.bands[0]), values(&first.bands[0]));
    assert_eq!(values(&right.bands[0]), values(&second.bands[0]));
    assert_eq!((right.width, right.height), (4, 7));
    let narrow = shade.compute(&kernel, &tile(&whole, 2, 0, 5, 7), cut(1, 0, 4, 7)).unwrap();
    assert_ne!(values(&narrow.bands[0]), values(&second.bands[0]));
}

#[test]
fn terrain_needs_a_band() {
    let kernel = |_: &Slope, _: &RasterChunk, _: usize| -> Result<Band, String> {
        Err("steep".to_string())
    };
    let none = Slope.compute(&kernel, &raster(7, 7, Vec::new()), cut(0, 0, 1, 1));
    assert!(matches!(none, Err(BandFault::Empty)));
    let failed = Slope.compute(&kernel, &hills(), cut(0, 0, 1, 1));
    assert!(matches!(failed, Err(BandFault::Kernel(e)) if e == "steep"));
    let kernel = |_: &Aspect, r: &RasterChunk, b: usize| -> Result<Band, String> {
        Ok(around(r, b, 0))
    };
    let two = raster(2, 1, vec![band(&[1.0, 2.0]), band(&[3.0, 4.0])]);
    let turned = Aspect.compute(&kernel, &two, cut(1, 0, 5, 5)).unwrap();
    assert_eq!(turned.bands.len(), 1);
    assert_eq!(values(&turned.bands[0]), [2.0]);
}

#[test]
fn focal_statistics_of_tiles_show_no_seam() {
    let mut whole = hills();
    let again = around(&whole, 0, 1);
    whole.bands.push(again);
    let kernel = |f: &Focal, r: &RasterChunk, b: usize| -> Result<Band, String> {
        Ok(around(r, b, f.radius as usize))
    };
    let mean = Focal::new(FocalOp::Mean, 1);
    let part = mean.compute(&kernel, &tile(&whole, 2, 1, 4, 5), cut(1, 1, 2, 3)).unwrap();
    let full = mean.compute(&kernel, &whole, cut(3, 2, 2, 3)).unwrap();
    assert_eq!(part.bands.len(), 2);
    for (a, b) in part.bands.iter().zip(&full.bands) {
        assert_eq!(values(a), values(b));
    }
}

#[test]
fn cells_are_reckoned_band_by_band() {
    let kernel = |m: &MapAlgebra, r: &RasterChunk, b: usize| -> Result<Band, usize> {
        match &m.op {
            AlgebraOp::Unary(UnaryOpConfig::Add(c)) => {
                let data = values(&r.bands[b]).iter().map(|v| num(v + value(*c))).collect();
                Ok(Band { nodata: r.bands[b].nodata, data })
            }
            AlgebraOp::Reclassify(classes) if b < classes.len() => Ok(around(r, b, 0)),
            _ => Err(b),
        }
    };
    let two = || raster(2, 1, vec![band(&[1.0, 2.0]), band(&[3.0, 4.0])]);
    let more = MapAlgebra::new(AlgebraOp::Unary(UnaryOpConfig::Add(num(0.5))));
    let out = more.compute(&kernel, &two(), cut(0, 0, 2, 1)).unwrap();
    assert_eq!(values(&out.bands[0]), [1.5, 2.5]);
    assert_eq!(values(&out.bands[1]), [3.5, 4.5]);
    let class = ClassRange { min: num(0.0), max: num(1.0), value: num(2.0) };
    let one = MapAlgebra::new(AlgebraOp::Reclassify(vec![class]));
    assert_eq!(one.compute(&kernel, &two(), cut(0, 0, 2, 1)).unwrap_err(), 1);
}

#[test]
fn bands_combine_pair_by_pair() {
    let kernel = |c: &Combine, a: &Band, b: &Band| -> Result<Band, String> {
        match c.op {
            BinaryOpConfig::Subtract => {
                let pairs = a.data.iter().zip(&b.data);
                Ok(Band {
                    nodata: a.nodata,
                    data: pairs.map(|(x, y)| num(value(*x) - value(*y))).collect(),
                })
            }
            _ => Err("unknown".to_string()),
        }
    };
    let left = vec![band(&[5.0, 6.0])];
    let right = vec![band(&[1.0, 2.0]), band(&[9.0, 9.0])];
    let less = Combine::new(BinaryOpConfig::Subtract).compute(&kernel, &left, &right).unwrap();
    assert_eq!(less.len(), 1);
    assert_eq!(values(&less[0]), [4.0, 4.0]);
    let none = Combine::new(BinaryOpConfig::Max).compute(&kernel, &left, &right);
    assert_eq!(none.unwrap_err(), "unknown");
}
