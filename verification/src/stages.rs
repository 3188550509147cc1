//! How a layer is wired: the elements that its file stands for, one after
//! the other.

use vstd::prelude::*;

use crate::caps::Crs;
use crate::config;
use crate::config::{
    ClassRange, FaninConfig, FocalOpConfig, InputConfig, LayerConfig, LayerShape, OpConfig,
    SourceConfig, UnaryOpConfig,
};
use crate::elements::FocalOp;
use crate::json::Json;
use crate::number::Real;
use crate::vec_ops::Burn;

verus! {

/// A step of wiring. Branches are a stack: a source begins one, a transform
/// goes on at the last, and a join ends the last so many and begins one.
#[derive(Clone, Copy, Debug)]
pub enum Stage<'a> {
    Source(&'a SourceConfig),
    Hillshade(Real, Real),
    BandMath(&'a String),
    Slope,
    Aspect,
    Focal(FocalOp, u32),
    Mask(usize, &'a Vec<Real>),
    Reclassify(&'a Vec<ClassRange>),
    Unary(UnaryOpConfig),
    Rasterize(&'a Burn),
    ToTensor(&'a Vec<u32>, &'a Vec<u32>),
    TensorConv(&'a Vec<u32>),
    ToRaster,
    VecFilter(&'a String, &'a Json),
    VecSchema(&'a Vec<String>, &'a Vec<(String, String)>, &'a Vec<(String, Json)>),
    VecClip(&'a String),
    Idw(Real, Real, usize),
    Join(FaninConfig, usize),
    Reproject(Crs),
}

/// The statistic that a focal operation names.
pub open spec fn statistic_of(op: FocalOpConfig) -> FocalOp {
    match op {
        FocalOpConfig::Mean => FocalOp::Mean,
        FocalOpConfig::Median => FocalOp::Median,
        FocalOpConfig::Min => FocalOp::Min,
        FocalOpConfig::Max => FocalOp::Max,
    }
}

/// The elements that an operation stands for. A convolution goes over
/// tensors and back.
pub open spec fn op_stages<'a>(op: &'a OpConfig) -> Seq<Stage<'a>> {
    match *op {
        OpConfig::Hillshade { azimuth, altitude } => seq![Stage::Hillshade(azimuth, altitude)],
        OpConfig::Bandmath { expr, .. } => seq![Stage::BandMath(&expr)],
        OpConfig::Slope => seq![Stage::Slope],
        OpConfig::Aspect => seq![Stage::Aspect],
        OpConfig::Focal { op, radius } => seq![Stage::Focal(statistic_of(op), radius)],
        OpConfig::Mask { band, valid_values } => seq![Stage::Mask(band, &valid_values)],
        OpConfig::Reclassify { classes } => seq![Stage::Reclassify(&classes)],
        OpConfig::Unary { op } => seq![Stage::Unary(op)],
        OpConfig::Rasterize { burn } => seq![Stage::Rasterize(&burn)],
        OpConfig::Convolve { kernel, scales, offsets } => seq![
            Stage::ToTensor(&scales, &offsets),
            Stage::TensorConv(&kernel),
            Stage::ToRaster,
        ],
        OpConfig::VecFilter { field, equals } => seq![Stage::VecFilter(&field, &equals)],
        OpConfig::VecSchema { drop, rename, add } => seq![Stage::VecSchema(&drop, &rename, &add)],
        OpConfig::VecClip { boundary } => seq![Stage::VecClip(&boundary)],
        OpConfig::Idw { power, radius_px, min_points } => seq![
            Stage::Idw(power, radius_px, min_points),
        ],
    }
}

/// The elements of the first `n` operations of a chain.
pub open spec fn chain_stages<'a>(ops: &'a Vec<OpConfig>, n: int) -> Seq<Stage<'a>>
    decreases n,
{
    if n <= 0 {
        Seq::empty()
    } else {
        chain_stages(ops, n - 1) + op_stages(&ops@[n - 1])
    }
}

/// The branches of the first `n` inputs of a join.
pub open spec fn input_stages<'a>(inputs: &'a Vec<InputConfig>, n: int) -> Seq<Stage<'a>>
    decreases n,
{
    if n <= 0 {
        Seq::empty()
    } else {
        let input = inputs@[n - 1];
        input_stages(inputs, n - 1).push(Stage::Source(&input.source)) + chain_stages(
            &input.ops,
            input.ops@.len() as int,
        )
    }
}

/// How a layer is wired: its source, or its inputs and their join, then its
/// chain, and a reprojection to web mercator at the end.
pub open spec fn stages_of<'a>(l: &'a LayerConfig) -> Seq<Stage<'a>> {
    let read = match l.source {
        Some(source) => seq![Stage::Source(&source)],
        None => input_stages(&l.inputs, l.inputs@.len() as int).push(
            Stage::Join(l.fanin->0, l.inputs.len()),
        ),
    };
    (read + chain_stages(&l.ops, l.ops@.len() as int)).push(Stage::Reproject(Crs(3857)))
}

fn push_op<'a>(op: &'a OpConfig, out: &mut Vec<Stage<'a>>)
    ensures
        final(out)@ == old(out)@ + op_stages(op),
{
    let ghost before = out@;
    match op {
        OpConfig::Hillshade { azimuth, altitude } => {
            out.push(Stage::Hillshade(*azimuth, *altitude));
        },
        OpConfig::Bandmath { expr, min: _, max: _ } => {
            out.push(Stage::BandMath(expr));
        },
        OpConfig::Slope => {
            out.push(Stage::Slope);
        },
        OpConfig::Aspect => {
            out.push(Stage::Aspect);
        },
        OpConfig::Focal { op, radius } => {
            let statistic = match op {
                FocalOpConfig::Mean => FocalOp::Mean,
                FocalOpConfig::Median => FocalOp::Median,
                FocalOpConfig::Min => FocalOp::Min,
                FocalOpConfig::Max => FocalOp::Max,
            };
            out.push(Stage::Focal(statistic, *radius));
        },
        OpConfig::Mask { band, valid_values } => {
            out.push(Stage::Mask(*band, valid_values));
        },
        OpConfig::Reclassify { classes } => {
            out.push(Stage::Reclassify(classes));
        },
        OpConfig::Unary { op } => {
            out.push(Stage::Unary(*op));
        },
        OpConfig::Rasterize { burn } => {
            out.push(Stage::Rasterize(burn));
        },
        OpConfig::Convolve { kernel, scales, offsets } => {
            out.push(Stage::ToTensor(scales, offsets));
            out.push(Stage::TensorConv(kernel));
            out.push(Stage::ToRaster);
        },
        OpConfig::VecFilter { field, equals } => {
            out.push(Stage::VecFilter(field, equals));
        },
        OpConfig::VecSchema { drop, rename, add } => {
            out.push(Stage::VecSchema(drop, rename, add));
        },
        OpConfig::VecClip { boundary } => {
            out.push(Stage::VecClip(boundary));
        },
        OpConfig::Idw { power, radius_px, min_points } => {
            out.push(Stage::Idw(*power, *radius_px, *min_points));
        },
    }
    assert(out@ =~= before + op_stages(op));
}

fn push_chain<'a>(ops: &'a Vec<OpConfig>, out: &mut Vec<Stage<'a>>)
    ensures
        final(out)@ == old(out)@ + chain_stages(ops, ops@.len() as int),
{
    let ghost before = out@;
    assert(before + chain_stages(ops, 0) =~= before);
    for i in 0..ops.len()
        invariant
            out@ == before + chain_stages(ops, i as int),
    {
        push_op(&ops[i], out);
        assert(out@ =~= before + chain_stages(ops, i + 1));
    }
}

/// How a layer is wired, or what is wrong with how it names its sources.
pub fn layer_stages<'a>(l: &'a LayerConfig) -> (r: Result<Vec<Stage<'a>>, String>)
    ensures
        match config::shape_fault(*l) {
            Some(t) => r matches Err(m) && m@ == t,
            None => r matches Ok(stages) && stages@ == stages_of(l) && stages@.last()
                == Stage::Reproject(Crs(3857)),
        },
{
    let mut out: Vec<Stage<'a>> = Vec::new();
    match l.shape() {
        Err(m) => {
            return Err(m);
        },
        Ok(LayerShape::Single(source)) => {
            out.push(Stage::Source(source));
            assert(out@ =~= seq![Stage::Source(source)]);
        },
        Ok(LayerShape::Fanin(fanin, inputs)) => {
            assert(out@ =~= input_stages(inputs, 0));
            for i in 0..inputs.len()
                invariant
                    out@ == input_stages(inputs, i as int),
            {
                out.push(Stage::Source(&inputs[i].source));
                push_chain(&inputs[i].ops, &mut out);
            }
            out.push(Stage::Join(fanin, inputs.len()));
        },
    }
    push_chain(&l.ops, &mut out);
    out.push(Stage::Reproject(Crs::web_mercator()));
    Ok(out)
}

// Wiring.

/// How many branches there are once the first `n` steps are wired, where
/// every step found what it goes on at.
pub open spec fn branches(stages: Seq<Stage>, n: int) -> Option<int>
    decreases n,
{
    if n <= 0 {
        Some(0)
    } else {
        match branches(stages, n - 1) {
            None => None,
            Some(k) => match stages[n - 1] {
                Stage::Source(_) => Some(k + 1),
                Stage::Join(_, m) => if 2 <= m <= k {
                    Some(k - m + 1)
                } else {
                    None
                },
                _ => if k >= 1 {
                    Some(k)
                } else {
                    None
                },
            },
        }
    }
}

proof fn prefixes_agree(a: Seq<Stage>, b: Seq<Stage>, n: int)
    requires
        0 <= n <= a.len(),
        n <= b.len(),
        forall|i: int| 0 <= i < n ==> #[trigger] a[i] == b[i],
    ensures
        branches(a, n) == branches(b, n),
    decreases n,
{
    if n > 0 {
        prefixes_agree(a, b, n - 1);
        assert(a[n - 1] == b[n - 1]);
    }
}

spec fn goes_on(s: Stage) -> bool {
    !(s is Source) && !(s is Join)
}

proof fn transforms_keep_branches(head: Seq<Stage>, tail: Seq<Stage>, k: int)
    requires
        branches(head, head.len() as int) == Some(k),
        k >= 1,
        forall|i: int| 0 <= i < tail.len() ==> goes_on(#[trigger] tail[i]),
    ensures
        branches(head + tail, (head + tail).len() as int) == Some(k),
    decreases tail.len(),
{
    let all = head + tail;
    if tail.len() == 0 {
        assert(all =~= head);
    } else {
        let less = tail.drop_last();
        assert forall|i: int| 0 <= i < less.len() implies goes_on(#[trigger] less[i]) by {
            assert(less[i] == tail[i]);
        }
        transforms_keep_branches(head, less, k);
        assert forall|i: int| 0 <= i < (head + less).len() implies #[trigger] (head + less)[i]
            == all[i] by {}
        prefixes_agree(head + less, all, all.len() - 1);
        assert(all[all.len() - 1] == tail.last());
        assert(goes_on(tail[tail.len() - 1]));
    }
}

proof fn chains_go_on(ops: &Vec<OpConfig>, n: int)
    requires
        0 <= n <= ops@.len(),
    ensures
        forall|i: int|
            0 <= i < chain_stages(ops, n).len() ==> goes_on(#[trigger] chain_stages(ops, n)[i]),
    decreases n,
{
    if n > 0 {
        chains_go_on(ops, n - 1);
        let before = chain_stages(ops, n - 1);
        let own = op_stages(&ops@[n - 1]);
        assert forall|i: int| 0 <= i < chain_stages(ops, n).len() implies goes_on(
            #[trigger] chain_stages(ops, n)[i],
        ) by {
            if i < before.len() {
                assert(goes_on(before[i]));
            } else {
                assert(chain_stages(ops, n)[i] == own[i - before.len()]);
            }
        }
    }
}

proof fn one_more_stage(head: Seq<Stage>, s: Stage)
    ensures
        branches(head.push(s), head.len() as int) == branches(head, head.len() as int),
{
    prefixes_agree(head.push(s), head, head.len() as int);
}

proof fn inputs_branch(inputs: &Vec<InputConfig>, n: int)
    requires
        0 <= n <= inputs@.len(),
    ensures
        branches(input_stages(inputs, n), input_stages(inputs, n).len() as int) == Some(n),
    decreases n,
{
    if n > 0 {
        inputs_branch(inputs, n - 1);
        let before = input_stages(inputs, n - 1);
        let input = inputs@[n - 1];
        let opened = before.push(Stage::Source(&input.source));
        one_more_stage(before, Stage::Source(&input.source));
        chains_go_on(&input.ops, input.ops@.len() as int);
        transforms_keep_branches(
            opened,
            chain_stages(&input.ops, input.ops@.len() as int),
            n,
        );
    }
}

/// A layer that names its sources right is wired into one branch: every
/// transform and every join finds what it goes on at, and one output is left.
pub proof fn a_layer_ends_in_one_branch(l: &LayerConfig)
    requires
        config::shape_fault(*l) is None,
    ensures
        branches(stages_of(l), stages_of(l).len() as int) == Some(1int),
{
    let read = match l.source {
        Some(source) => seq![Stage::Source(&source)],
        None => input_stages(&l.inputs, l.inputs@.len() as int).push(
            Stage::Join(l.fanin->0, l.inputs.len()),
        ),
    };
    if l.source is Some {
        assert(branches(read, 0) == Some(0int));
        assert(branches(read, 1) == Some(1int));
    } else {
        let n = l.inputs@.len() as int;
        inputs_branch(&l.inputs, n);
        assert(config::count_fault(l.fanin->0, l.inputs@.len()) is None);
        assert(n >= 2);
        assert(l.inputs.len() == n);
        one_more_stage(
            input_stages(&l.inputs, n),
            Stage::Join(l.fanin->0, l.inputs.len()),
        );
    }
    let tail = chain_stages(&l.ops, l.ops@.len() as int);
    chains_go_on(&l.ops, l.ops@.len() as int);
    transforms_keep_branches(read, tail, 1);
    one_more_stage(read + tail, Stage::Reproject(Crs(3857)));
}

} // verus!
