//! Land put together: out of the shapes of a map, with straits opened, into grids.
use crate::bounds::LonLatBbox;
use crate::given;
use crate::landmass::distance;
use crate::landmass::grid;
use crate::landmass::grid::LandmassGrid;
use crate::landmass::raster;
use crate::landmass::raster::{
    apply_strait_carve_outs, open_ring, polygon_bbox, rasterise_mask, Leg, Polygon,
};
use crate::landmass::two_tier::FinePatch;
use crate::number::{Real, Real32};
use vstd::prelude::*;

verus! {

/// A shape of a map.
#[derive(Clone, Debug)]
pub enum Geometry {
    /// An outline and the outlines of its holes, each with its first point again at the end.
    Polygon { coordinates: Vec<Vec<(Real, Real)>> },
    /// More of them.
    MultiPolygon { coordinates: Vec<Vec<Vec<(Real, Real)>>> },
    /// What covers nothing.
    Other,
}

/// The outlines of a polygon.
pub open spec fn outlines(p: Polygon) -> Seq<Seq<(Real, Real)>> {
    Seq::new(p.rings@.len(), |k: int| p.rings@[k]@)
}

/// The outlines of polygons.
pub open spec fn all_outlines(polygons: Seq<Polygon>) -> Seq<Seq<Seq<(Real, Real)>>> {
    Seq::new(polygons.len(), |k: int| outlines(polygons[k]))
}

/// Outlines, each without its first point again at the end.
pub open spec fn all_opened(rings: Seq<Vec<(Real, Real)>>) -> Seq<Seq<(Real, Real)>> {
    Seq::new(rings.len(), |k: int| raster::opened(rings[k]@))
}

impl Geometry {
    /// What the shape covers.
    pub open spec fn covered(self) -> Seq<Seq<Seq<(Real, Real)>>> {
        match self {
            Geometry::Polygon { coordinates } => seq![all_opened(coordinates@)],
            Geometry::MultiPolygon { coordinates } => Seq::new(
                coordinates@.len(),
                |k: int| all_opened(coordinates@[k]@),
            ),
            Geometry::Other => Seq::empty(),
        }
    }

    /// The polygons of the shape.
    pub fn into_polygons(self) -> (polygons: Vec<Polygon>)
        ensures
            all_outlines(polygons@) == self.covered(),
    {
        let mut polygons: Vec<Polygon> = Vec::new();
        match self {
            Geometry::Polygon { coordinates } => {
                polygons.push(Polygon { rings: open_rings(coordinates) });
                assert(all_outlines(polygons@) =~= self.covered());
            },
            Geometry::MultiPolygon { coordinates } => {
                let ghost all = coordinates@;
                let mut coordinates: Vec<Vec<Vec<(Real, Real)>>> = coordinates;
                while coordinates.len() > 0
                    invariant
                        coordinates@.len() + polygons@.len() == all.len(),
                        coordinates@ == all.take(coordinates@.len() as int),
                        forall|k: int|
                            0 <= k < polygons@.len() ==> outlines(#[trigger] polygons@[k])
                                == all_opened(all[coordinates@.len() + k]@),
                    decreases coordinates@.len(),
                {
                    let ghost n = coordinates@.len();
                    let ghost before = polygons@;
                    if let Some(rings) = coordinates.pop() {
                        polygons.insert(0, Polygon { rings: open_rings(rings) });
                        assert(coordinates@ =~= all.take(n - 1));
                        assert forall|k: int| 0 <= k < polygons@.len() implies outlines(
                            #[trigger] polygons@[k],
                        ) == all_opened(all[n - 1 + k]@) by {
                            if k > 0 {
                                assert(polygons@[k] == before[k - 1]);
                            } else {
                                assert(outlines(polygons@[0]) =~= all_opened(rings@));
                            }
                        }
                    }
                }
                assert(all_outlines(polygons@) =~= self.covered());
            },
            Geometry::Other => {
                assert(all_outlines(polygons@) =~= self.covered());
            },
        }
        polygons
    }
}

/// Outlines, each without its first point again at the end.
fn open_rings(rings: Vec<Vec<(Real, Real)>>) -> (out: Vec<Vec<(Real, Real)>>)
    ensures
        outlines(Polygon { rings: out }) == all_opened(rings@),
{
    let ghost all = rings@;
    let mut rings: Vec<Vec<(Real, Real)>> = rings;
    let mut out: Vec<Vec<(Real, Real)>> = Vec::new();
    while rings.len() > 0
        invariant
            rings@.len() + out@.len() == all.len(),
            rings@ == all.take(rings@.len() as int),
            forall|k: int|
                0 <= k < out@.len() ==> (#[trigger] out@[k])@ == raster::opened(
                    all[rings@.len() + k]@,
                ),
        decreases rings@.len(),
    {
        let ghost n = rings@.len();
        let ghost before = out@;
        if let Some(ring) = rings.pop() {
            out.insert(0, open_ring(ring));
            assert(rings@ =~= all.take(n - 1));
            assert forall|k: int| 0 <= k < out@.len() implies (#[trigger] out@[k])@
                == raster::opened(all[n - 1 + k]@) by {
                if k > 0 {
                    assert(out@[k] == before[k - 1]);
                }
            }
        }
    }
    assert(outlines(Polygon { rings: out }) =~= all_opened(all));
    out
}

/// What shapes cover, one after another.
pub open spec fn all_covered(shapes: Seq<Geometry>) -> Seq<Seq<Seq<(Real, Real)>>>
    decreases shapes.len(),
{
    if shapes.len() == 0 {
        Seq::empty()
    } else {
        shapes[0].covered() + all_covered(shapes.skip(1))
    }
}

/// The polygons of shapes, one after another.
pub fn polygons_of(shapes: Vec<Geometry>) -> (polygons: Vec<Polygon>)
    ensures
        all_outlines(polygons@) == all_covered(shapes@),
{
    let ghost all = shapes@;
    let mut shapes: Vec<Geometry> = shapes;
    let mut polygons: Vec<Polygon> = Vec::new();
    assert(all.skip(all.len() as int) =~= Seq::<Geometry>::empty());
    assert(all_outlines(polygons@) =~= all_covered(all.skip(all.len() as int)));
    while shapes.len() > 0
        invariant
            shapes@.len() <= all.len(),
            shapes@ == all.take(shapes@.len() as int),
            all_outlines(polygons@) == all_covered(all.skip(shapes@.len() as int)),
        decreases shapes@.len(),
    {
        let ghost n = shapes@.len() as int;
        let ghost after = polygons@;
        if let Some(shape) = shapes.pop() {
            let mut more: Vec<Polygon> = shape.into_polygons();
            let ghost first = more@;
            more.append(&mut polygons);
            polygons = more;
            assert(shapes@ =~= all.take(n - 1));
            assert(all.skip(n - 1).skip(1) =~= all.skip(n));
            assert(all.skip(n - 1)[0] == shape);
            assert(polygons@ =~= first + after);
            assert(all_outlines(polygons@) =~= all_outlines(first) + all_outlines(after));
        }
    }
    assert(all.skip(0) =~= all);
    polygons
}

/// Which cells are land: those that polygons cover, but for those that legs of straits open.
pub open spec fn land<
    S: Fn(LonLatBbox) -> (usize, usize, usize, usize),
    C: Fn(usize, usize) -> (Real, Real),
    M: Fn((Real, Real), (Real, Real), Real) -> Real,
    T: Fn(Leg) -> (isize, isize, isize, isize),
    N: Fn(Leg, (isize, usize)) -> bool,
>(
    polygons: Seq<Polygon>,
    legs: Seq<Leg>,
    w: int,
    h: int,
    lon_wrap: bool,
    span: S,
    centre: C,
    meet: M,
    reach: T,
    near: N,
) -> Seq<bool> {
    Seq::new(
        (w * h) as nat,
        |c: int|
            raster::land_at(
                polygons,
                polygons.len() as int,
                c % w,
                c / w,
                span,
                centre,
                meet,
            ) && !raster::opened_by(legs, legs.len() as int, c % w, c / w, w, lon_wrap, reach, near),
    )
}

/// Which cells are land. `span` tells which columns and rows have their centres within a
/// rectangle, `centre` where the centre of a cell is, `meet` at which longitude a side
/// crosses a latitude, `reach` which columns and rows can be near a leg of a strait, and
/// `near` which cells are.
pub fn land_mask<
    S: Fn(LonLatBbox) -> (usize, usize, usize, usize),
    C: Fn(usize, usize) -> (Real, Real),
    M: Fn((Real, Real), (Real, Real), Real) -> Real,
    T: Fn(Leg) -> (isize, isize, isize, isize),
    N: Fn(Leg, (isize, usize)) -> bool,
>(
    polygons: &Vec<Polygon>,
    legs: &Vec<Leg>,
    width: usize,
    height: usize,
    lon_wrap: bool,
    span: &S,
    centre: &C,
    meet: &M,
    reach: &T,
    near: &N,
) -> (mask: Vec<bool>)
    requires
        width > 0,
        width * height <= usize::MAX,
        given::settled1(*span),
        given::settled2(*centre),
        given::settled3(*meet),
        given::settled1(*reach),
        given::settled2(*near),
        forall|leg: Leg| (#[trigger] given::gives1(*reach, leg)).1 < isize::MAX,
    ensures
        mask@ == land(
            polygons@,
            legs@,
            width as int,
            height as int,
            lon_wrap,
            *span,
            *centre,
            *meet,
            *reach,
            *near,
        ),
{
    let mut mask: Vec<bool> = rasterise_mask(polygons, width, height, span, centre, meet);
    let ghost drawn = mask@;
    apply_strait_carve_outs(&mut mask, width, height, lon_wrap, legs, reach, near);
    proof {
        let whole = land(
            polygons@,
            legs@,
            width as int,
            height as int,
            lon_wrap,
            *span,
            *centre,
            *meet,
            *reach,
            *near,
        );
        assert forall|c: int| 0 <= c < mask@.len() implies mask@[c] == whole[c] by {
            assert(drawn[c] == drawn[c]);
        }
        assert(mask@ =~= whole);
    }
    mask
}

impl LandmassGrid {
    /// The grid of the whole globe out of polygons, with straits opened. The functions are
    /// those of `land_mask`, and `metres` tells a distance in metres from its square in
    /// cells, with the same sign.
    pub fn build<
        S: Fn(LonLatBbox) -> (usize, usize, usize, usize),
        C: Fn(usize, usize) -> (Real, Real),
        M: Fn((Real, Real), (Real, Real), Real) -> Real,
        T: Fn(Leg) -> (isize, isize, isize, isize),
        N: Fn(Leg, (isize, usize)) -> bool,
        D: Fn(i64) -> Real32,
    >(
        polygons: &Vec<Polygon>,
        legs: &Vec<Leg>,
        width: usize,
        height: usize,
        span: &S,
        centre: &C,
        meet: &M,
        reach: &T,
        near: &N,
        metres: &D,
    ) -> (g: LandmassGrid)
        requires
            0 < width <= distance::MAX_SIDE,
            0 < height <= distance::MAX_SIDE,
            width * height <= usize::MAX,
            given::settled1(*span),
            given::settled2(*centre),
            given::settled3(*meet),
            given::settled1(*reach),
            given::settled2(*near),
            given::settled1(*metres),
            forall|leg: Leg| (#[trigger] given::gives1(*reach, leg)).1 < isize::MAX,
        ensures
            g.wf(),
            g.width == width,
            g.height == height,
            ({
                let mask = land(
                    polygons@,
                    legs@,
                    width as int,
                    height as int,
                    true,
                    *span,
                    *centre,
                    *meet,
                    *reach,
                    *near,
                );
                forall|c: int|
                    0 <= c < mask.len() ==> #[trigger] g.sdf_m@[c] == given::gives1(
                        *metres,
                        grid::coast_distances(mask, width as int, true)[c] as i64,
                    )
            }),
    {
        let mask: Vec<bool> = land_mask(
            polygons,
            legs,
            width,
            height,
            true,
            span,
            centre,
            meet,
            reach,
            near,
        );
        LandmassGrid::from_mask(mask.as_slice(), width, height, metres)
    }
}

impl FinePatch {
    /// The patch of a rectangle out of polygons, with straits opened. The functions are
    /// those of `land_mask`, and `metres` tells a distance in metres from its square in
    /// cells, with the same sign.
    pub fn build<
        S: Fn(LonLatBbox) -> (usize, usize, usize, usize),
        C: Fn(usize, usize) -> (Real, Real),
        M: Fn((Real, Real), (Real, Real), Real) -> Real,
        T: Fn(Leg) -> (isize, isize, isize, isize),
        N: Fn(Leg, (isize, usize)) -> bool,
        D: Fn(i64) -> Real32,
    >(
        bbox: LonLatBbox,
        polygons: &Vec<Polygon>,
        legs: &Vec<Leg>,
        width: usize,
        height: usize,
        span: &S,
        centre: &C,
        meet: &M,
        reach: &T,
        near: &N,
        metres: &D,
    ) -> (p: FinePatch)
        requires
            0 < width <= distance::MAX_SIDE,
            0 < height <= distance::MAX_SIDE,
            width * height <= usize::MAX,
            given::settled1(*span),
            given::settled2(*centre),
            given::settled3(*meet),
            given::settled1(*reach),
            given::settled2(*near),
            given::settled1(*metres),
            forall|leg: Leg| (#[trigger] given::gives1(*reach, leg)).1 < isize::MAX,
        ensures
            p.wf(),
            p.bbox == bbox,
            p.width == width,
            p.height == height,
            ({
                let mask = land(
                    polygons@,
                    legs@,
                    width as int,
                    height as int,
                    false,
                    *span,
                    *centre,
                    *meet,
                    *reach,
                    *near,
                );
                forall|c: int|
                    0 <= c < mask.len() ==> #[trigger] p.sdf_m@[c] == given::gives1(
                        *metres,
                        grid::coast_distances(mask, width as int, false)[c] as i64,
                    )
            }),
    {
        let mask: Vec<bool> = land_mask(
            polygons,
            legs,
            width,
            height,
            false,
            span,
            centre,
            meet,
            reach,
            near,
        );
        FinePatch::from_mask(bbox, mask.as_slice(), width, height, metres)
    }
}

/// The bits of -90, the latitude of the south pole.
pub const SOUTH_POLE: u64 = 0xC056_8000_0000_0000;

/// The bits of 90, the latitude of the north pole.
pub const NORTH_POLE: u64 = 0x4056_8000_0000_0000;

/// An area without what would lie beyond the poles, as a patch can cover it.
pub fn clamp_latitudes(area: LonLatBbox) -> (b: LonLatBbox)
    ensures
        b.lon_min == area.lon_min,
        b.lon_max == area.lon_max,
        b.lat_min == area.lat_min.greater_of(Real { bits: SOUTH_POLE }),
        b.lat_max == area.lat_max.lesser_of(Real { bits: NORTH_POLE }),
        (Real { bits: SOUTH_POLE }).at_most(b.lat_min),
        b.lat_max.at_most(Real { bits: NORTH_POLE }),
{
    LonLatBbox::new(
        area.lon_min,
        area.lon_max,
        area.lat_min.max(Real { bits: SOUTH_POLE }),
        area.lat_max.min(Real { bits: NORTH_POLE }),
    )
}

/// The extents of the lines of straits, each widened.
pub open spec fn widened<P: Fn(LonLatBbox) -> LonLatBbox>(
    straits: Seq<Polygon>,
    padded: P,
) -> Seq<LonLatBbox> {
    Seq::new(straits.len(), |k: int| given::gives1(padded, raster::extent(straits[k])))
}

/// The extents of the lines of straits, each widened by `padded`. A strait is told by
/// the points along it.
pub fn strait_boxes<P: Fn(LonLatBbox) -> LonLatBbox>(straits: &Vec<Polygon>, padded: &P) -> (boxes:
    Vec<LonLatBbox>)
    requires
        given::settled1(*padded),
    ensures
        boxes@ == widened(straits@, *padded),
{
    let mut boxes: Vec<LonLatBbox> = Vec::new();
    let mut k: usize = 0;
    while k < straits.len()
        invariant
            k <= straits@.len(),
            given::settled1(*padded),
            boxes@ == widened(straits@, *padded).take(k as int),
        decreases straits@.len() - k,
    {
        boxes.push(padded(polygon_bbox(&straits[k])));
        assert(boxes@ =~= widened(straits@, *padded).take(k + 1));
        k += 1;
    }
    assert(boxes@ =~= widened(straits@, *padded));
    boxes
}

/// The line of a route by sea: from where it starts through the centres of its cells to
/// where it ends.
pub fn sea_line<C: Fn(usize) -> (Real, Real)>(
    origin: (Real, Real),
    destination: (Real, Real),
    cells: &Vec<usize>,
    centre: &C,
) -> (line: Vec<(Real, Real)>)
    requires
        given::settled1(*centre),
    ensures
        line@ == seq![origin] + Seq::new(
            cells@.len(),
            |k: int| given::gives1(*centre, cells@[k]),
        ) + seq![destination],
{
    let ghost centres = Seq::new(cells@.len(), |k: int| given::gives1(*centre, cells@[k]));
    let mut line: Vec<(Real, Real)> = Vec::new();
    line.push(origin);
    let mut k: usize = 0;
    assert(line@ =~= seq![origin] + centres.take(0));
    while k < cells.len()
        invariant
            k <= cells@.len(),
            given::settled1(*centre),
            centres == Seq::new(cells@.len(), |k: int| given::gives1(*centre, cells@[k])),
            line@ == seq![origin] + centres.take(k as int),
        decreases cells@.len() - k,
    {
        line.push(centre(cells[k]));
        assert(line@ =~= seq![origin] + centres.take(k + 1));
        k += 1;
    }
    line.push(destination);
    assert(line@ =~= seq![origin] + centres + seq![destination]);
    line
}

} // verus!
