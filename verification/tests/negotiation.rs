use geoplumb::caps::{
    Caps, CapsPattern, CapsSet, Constraint, Crs, Dtype, FieldMask, RasterPattern, ResRange,
    SetField,
};
use geoplumb::config::BinaryOpConfig;
use geoplumb::elements::{
    canonical_origin, cross_kind_passthrough, default_adapters, point_source, raster_source,
    source_grid, vector_identity, vector_source, AdapterKind, Combine, Focal, FocalOp, IdwGrid,
    Mosaic, QualityMask, Reproject, Slope, ToRaster, ToTensor,
};
use geoplumb::error::{Error, LinkFault};
use geoplumb::graph::{Graph, NodeId};
use geoplumb::number::Real;
use geoplumb::plug::solve_plugged;
use geoplumb::solver::solve;
use geoplumb::tensor::TensorConv;
use geoplumb::vec_ops::{Burn, Rasterize};

fn num(v: f64) -> Real {
    Real::from_bits(v.to_bits())
}

#[test]
fn fields_meet_in_the_order_of_the_first() {
    let a = SetField::OneOf(vec![Crs(1), Crs(2), Crs(3)]);
    let b = SetField::OneOf(vec![Crs(3), Crs(2)]);
    match a.intersect(&b) {
        SetField::OneOf(v) => assert_eq!(v, [Crs(2), Crs(3)]),
        other => panic!("unexpected {other:?}"),
    }
    assert_eq!(a.fixate(), Some(Crs(1)));
    let floor: SetField<u16> = SetField::AtLeast(3);
    match floor.intersect(&SetField::OneOf(vec![1, 5, 3])) {
        SetField::OneOf(v) => assert_eq!(v, [5, 3]),
        other => panic!("unexpected {other:?}"),
    }
    assert!(floor.intersect(&SetField::one(2)).is_empty());
    assert!(!SetField::<u16>::Any.is_empty());
    assert_eq!(Crs(4326).authority(), "EPSG:4326");
    assert!(!FieldMask::without_crs_resolution().crs);
    assert!(cross_kind_passthrough().bands);
}

fn raster(bands: u16, crs: u32) -> Constraint {
    raster_source(bands, Crs(crs), num(10.0))
}

fn any_raster() -> Constraint {
    Constraint::Identity(CapsSet::any_raster())
}

fn only_crs(code: u32) -> Constraint {
    Constraint::Identity(CapsSet::one(CapsPattern::Raster(RasterPattern {
        crs: SetField::one(Crs(code)),
        ..RasterPattern::default()
    })))
}

#[test]
fn a_chain_is_fixed_from_its_source() {
    let mut g = Graph::new();
    let source = g.add_source(raster(3, 4326));
    let same = g.add_transform(source, any_raster());
    let caps = solve(&g).unwrap();
    assert_eq!(caps.len(), 2);
    let out = caps[same.0].raster();
    assert_eq!((out.bands, out.crs, out.dtype), (3, Crs(4326), Dtype::F64));
    assert_eq!(out.resolution.min, num(10.0));
    assert!(caps[0].same_as(&caps[1]));
    assert_eq!(caps[0].fingerprint(), caps[1].fingerprint());
}

#[test]
fn a_link_without_common_caps_is_named() {
    let mut g = Graph::new();
    let source = g.add_source(raster(3, 4326));
    let shaded = g.add_transform(source, Slope.constraint());
    match solve(&g) {
        Err(Error::EmptyLink { upstream, downstream, fault, .. }) => {
            assert_eq!((upstream, downstream), (source, shaded));
            assert_eq!(fault, LinkFault::NothingAccepted);
        }
        other => panic!("unexpected {other:?}"),
    }
}

#[test]
fn kinds_are_turned_into_each_other() {
    let mut g = Graph::new();
    let features = g.add_source(vector_source(Crs(4326), num(0.5)));
    let kept = g.add_transform(features, vector_identity());
    let burned = Rasterize { burn: Burn::Constant(num(1.0)) };
    let pixels = g.add_transform(kept, burned.constraint());
    let scaled = ToTensor { scales: vec![0], offsets: vec![0] };
    let tensor = g.add_transform(pixels, scaled.constraint());
    let conv = TensorConv { kernel: vec![0; 9] };
    let smooth = g.add_transform(tensor, conv.constraint());
    let back = g.add_transform(smooth, ToRaster.constraint());
    let caps = solve(&g).unwrap();
    assert!(matches!(caps[kept.0], Caps::Vector(_)));
    assert_eq!(caps[tensor.0].tensor().channels, 1);
    assert_eq!(caps[back.0].raster().bands, 1);
    assert_eq!(caps[back.0].raster().crs, Crs(4326));
}

#[test]
fn points_are_gridded() {
    let mut g = Graph::new();
    let cloud = g.add_source(point_source(Crs(2056), num(0.25)));
    let grid = g.add_transform(cloud, IdwGrid::default().constraint());
    let caps = solve(&g).unwrap();
    assert_eq!(caps[grid.0].raster().crs, Crs(2056));
    assert_eq!(caps[cloud.0].point().crs, Crs(2056));
}

#[test]
fn a_mask_demands_its_band() {
    let mut g = Graph::new();
    let source = g.add_source(raster(2, 4326));
    g.add_transform(source, QualityMask::new(1, vec![num(1.0)]).constraint());
    assert!(solve(&g).is_ok());
    let mut short = Graph::new();
    let source = short.add_source(raster(2, 4326));
    short.add_transform(source, QualityMask::new(2, vec![]).constraint());
    assert!(solve(&short).is_err());
}

#[test]
fn branches_of_a_join_agree() {
    let mut g = Graph::new();
    let a = g.add_source(raster(1, 4326));
    let b = g.add_source(raster(1, 3857));
    let joined = g.add_fanin(vec![a, b], Mosaic.constraint());
    assert!(solve(&g).is_err());
    let mut same = Graph::new();
    let a = same.add_source(raster(1, 4326));
    let b = same.add_source(raster(1, 4326));
    let out = same.add_fanin(vec![a, b], Combine::new(BinaryOpConfig::Add).constraint());
    assert_eq!(out, joined);
    assert!(solve(&same).is_ok());
    assert!(Combine::new(BinaryOpConfig::Add).configure(2).is_ok());
    match Combine::new(BinaryOpConfig::Add).configure(3) {
        Err(Error::InvalidGraph(m)) => {
            assert_eq!(m, "combine needs exactly two inputs, wired with 3")
        }
        other => panic!("unexpected {other:?}"),
    }
}

#[test]
fn a_reprojection_is_put_where_only_the_crs_differs() {
    let mut g = Graph::new();
    let source = g.add_source(raster(1, 4326));
    let wanted = g.add_transform(source, only_crs(3857));
    assert!(solve(&g).is_err());
    let caps = solve_plugged(&mut g, &default_adapters()).unwrap();
    assert_eq!(caps.len(), 3);
    assert_eq!(g.parents(wanted), [2]);
    assert_eq!(g.parents(NodeId(2)), [source.0]);
    assert_eq!(caps[source.0].crs(), Crs(4326));
    assert_eq!(caps[2].crs(), Crs(3857));
    assert_eq!(caps[wanted.0].crs(), Crs(3857));
}

fn plugged_join(crss: &[u32]) -> (Graph, NodeId, Vec<Caps>) {
    let mut g = Graph::new();
    let sources: Vec<NodeId> = crss.iter().map(|c| g.add_source(raster(1, *c))).collect();
    let joined = g.add_fanin(sources, Mosaic.constraint());
    let caps = solve_plugged(&mut g, &default_adapters()).unwrap();
    (g, joined, caps)
}

#[test]
fn inputs_that_differ_in_crs_are_joined_on_one() {
    let (g, joined, caps) = plugged_join(&[4326, 3857]);
    assert_eq!(g.len(), 4);
    assert_eq!(g.parents(joined), [3, 1]);
    assert_eq!(g.parents(NodeId(3)), [0]);
    let on: Vec<Crs> = g.parents(joined).iter().map(|p| caps[*p].crs()).collect();
    assert_eq!(on, [Crs(3857), Crs(3857)]);
    assert_eq!(caps[0].crs(), Crs(4326));
    assert_eq!(caps[joined.0].crs(), Crs(3857));
}

#[test]
fn inputs_that_agree_with_each_other_lead() {
    let (g, joined, caps) = plugged_join(&[4326, 3857, 3857]);
    assert_eq!(g.parents(joined), [4, 1, 2]);
    assert_eq!(caps[4].crs(), Crs(3857));
    let (same, joined, _) = plugged_join(&[3857, 3857]);
    assert_eq!(same.len(), 3);
    assert_eq!(same.parents(joined), [0, 1]);
}

#[test]
fn inputs_that_all_disagree_settle_on_the_first() {
    let (g, joined, caps) = plugged_join(&[4326, 3857, 4326, 2056]);
    assert_eq!(g.parents(joined), [0, 5, 2, 6]);
    assert_eq!(g.parents(NodeId(5)), [1]);
    assert_eq!(g.parents(NodeId(6)), [3]);
    assert!(g.parents(joined).iter().all(|p| caps[*p].crs() == Crs(4326)));
    let mut combined = Graph::new();
    let a = combined.add_source(raster(1, 4326));
    let b = combined.add_source(raster(1, 3857));
    let steep = combined.add_transform(b, Slope.constraint());
    combined.add_fanin(vec![a, steep], Combine::new(BinaryOpConfig::Add).constraint());
    assert!(solve_plugged(&mut combined, &default_adapters()).is_ok());
    let mut wanted = Graph::new();
    let a = wanted.add_source(raster(1, 4326));
    let b = wanted.add_source(raster(1, 2056));
    let out = wanted.add_fanin(vec![a, b], only_crs(3857));
    let caps = solve_plugged(&mut wanted, &default_adapters()).unwrap();
    assert!(wanted.parents(out).iter().all(|p| caps[*p].crs() == Crs(3857)));
    let mut odd = Graph::new();
    let a = odd.add_source(raster(1, 4326));
    let b = odd.add_source(raster(2, 3857));
    odd.add_fanin(vec![a, b], Mosaic.constraint());
    assert!(solve_plugged(&mut odd, &default_adapters()).is_err());
    assert_eq!(odd.len(), 3);
}

#[test]
fn nothing_is_put_on_a_link_that_agrees_or_cannot() {
    let mut fine = Graph::new();
    let source = fine.add_source(raster(1, 4326));
    fine.add_transform(source, Focal::new(FocalOp::Mean, 2).constraint());
    assert_eq!(solve_plugged(&mut fine, &default_adapters()).unwrap().len(), 2);
    let mut odd = Graph::new();
    let source = odd.add_source(raster(3, 4326));
    odd.add_transform(source, Slope.constraint());
    assert!(solve_plugged(&mut odd, &default_adapters()).is_err());
    assert_eq!(odd.len(), 2);
    let mut bare = Graph::new();
    let source = bare.add_source(raster(1, 4326));
    bare.add_transform(source, only_crs(3857));
    assert!(solve_plugged(&mut bare, &Vec::new()).is_err());
}

#[test]
fn adapters_take_the_crs_that_is_asked_for() {
    let adapters = default_adapters();
    assert_eq!(adapters[0].kind, AdapterKind::Raster);
    assert_eq!(adapters[1].kind, AdapterKind::Vector);
    let asked = CapsPattern::Raster(RasterPattern {
        crs: SetField::OneOf(vec![Crs(3857), Crs(4326)]),
        ..RasterPattern::default()
    });
    assert_eq!(adapters[0].target(&asked), Some(Crs(3857)));
    assert_eq!(adapters[1].target(&asked), None);
    let free = CapsPattern::Raster(RasterPattern::default());
    assert_eq!(adapters[0].target(&free), None);
}

#[test]
fn reprojected_grids_start_at_the_edge_of_the_map() {
    let own = (num(1.0), num(2.0));
    assert_eq!(
        canonical_origin(Crs(3857), own),
        (num(-20037508.342789244), num(20037508.342789244))
    );
    assert_eq!(canonical_origin(Crs(4326), own), (num(-180.0), num(90.0)));
    assert_eq!(canonical_origin(Crs(2056), own), own);
    let mut g = Graph::new();
    let source = g.add_source(raster(1, 4326));
    let web = g.add_transform(source, Reproject::new(Crs::web_mercator()).constraint());
    assert_eq!(solve(&g).unwrap()[web.0].crs(), Crs(3857));
    assert_eq!(source_grid(num(7.0), num(47.0), num(0.001)).chunk_px, 256);
}

#[test]
fn a_tensor_needs_a_scale_and_an_offset_per_band() {
    let odd = ToTensor { scales: vec![0, 0], offsets: vec![0] };
    assert!(format!("{:?}", odd.configure()).contains("to tensor: 2 scales against 1 offsets"));
    let fine = ToTensor { scales: vec![0, 0], offsets: vec![0, 0] };
    assert!(fine.configure().is_ok());
    assert_eq!(fine.channel_count(), 2);
    let many = ToTensor { scales: vec![0; 65537], offsets: vec![0; 65537] };
    assert_eq!(many.channel_count(), 1);
    assert!(many.configure().is_ok());
    let _ = many.constraint();
    assert!(fine.check_bands(2).is_ok());
    assert!(format!("{:?}", fine.check_bands(3)).contains("to tensor: 3 bands into 2 channels"));
    assert!(ResRange::any().contains(num(1e9)));
}
