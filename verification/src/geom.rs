//! Points, boxes and right-angled moves on the integer grid of a layout.

use klayout_core::LayerIndex;
use vstd::prelude::*;
use vstd::string::*;

verus! {

#[derive(Debug, Clone, Copy, PartialEq, Eq, Structural)]
pub struct Point {
    pub x: i64,
    pub y: i64,
}

#[derive(Debug, Clone, Copy, PartialEq, Eq, Structural)]
pub struct Vec2 {
    pub x: i64,
    pub y: i64,
}

/// A box, given by its lower left and upper right corner. It is empty where they are
/// the other way round.
#[derive(Debug, Clone, Copy, PartialEq, Eq, Structural)]
pub struct Bbox {
    pub min: Point,
    pub max: Point,
}

/// A quarter turn.
#[derive(Debug, Clone, Copy, PartialEq, Eq, Structural)]
pub enum Rot4 {
    R0,
    R90,
    R180,
    R270,
}

/// A direction along an axis.
#[derive(Debug, Clone, Copy, PartialEq, Eq, Structural)]
pub enum Angle90 {
    E,
    N,
    W,
    S,
}

/// A move: a mirroring about the horizontal axis, then a turn, then a shift.
#[derive(Debug, Clone, Copy, PartialEq, Eq, Structural)]
pub struct Trans {
    pub rot: Rot4,
    pub mirror: bool,
    pub disp: Vec2,
}

/// Whether a number can be a coordinate.
pub open spec fn is_coord(n: int) -> bool {
    i64::MIN <= n <= i64::MAX
}

/// The point with the given coordinates, if they can be coordinates.
pub open spec fn point_at(x: int, y: int) -> Option<Point> {
    if is_coord(x) && is_coord(y) {
        Some(Point { x: x as i64, y: y as i64 })
    } else {
        None
    }
}

/// The coordinate `n`, if it can be one.
pub fn to_coord(n: i128) -> (res: Option<i64>)
    ensures
        res is Some <==> is_coord(n as int),
        res matches Some(c) ==> c == n,
{
    if i64::MIN as i128 <= n && n <= i64::MAX as i128 {
        Some(n as i64)
    } else {
        None
    }
}

fn to_point(x: i128, y: i128) -> (res: Option<Point>)
    ensures
        res == point_at(x as int, y as int),
{
    match (to_coord(x), to_coord(y)) {
        (Some(x), Some(y)) => Some(Point { x, y }),
        _ => None,
    }
}

impl Bbox {
    pub open spec fn empty(self) -> bool {
        self.min.x > self.max.x || self.min.y > self.max.y
    }

    pub fn is_empty(&self) -> (res: bool)
        ensures
            res == self.empty(),
    {
        self.min.x > self.max.x || self.min.y > self.max.y
    }

    pub open spec fn wide(self) -> int {
        if self.empty() {
            0
        } else {
            self.max.x - self.min.x
        }
    }

    pub open spec fn high(self) -> int {
        if self.empty() {
            0
        } else {
            self.max.y - self.min.y
        }
    }

    pub fn width(&self) -> (res: i128)
        ensures
            res == self.wide(),
            0 <= res < 0x1_0000_0000_0000_0000,
    {
        if self.is_empty() {
            0
        } else {
            self.max.x as i128 - self.min.x as i128
        }
    }

    pub fn height(&self) -> (res: i128)
        ensures
            res == self.high(),
            0 <= res < 0x1_0000_0000_0000_0000,
    {
        if self.is_empty() {
            0
        } else {
            self.max.y as i128 - self.min.y as i128
        }
    }

    pub open spec fn holds(self, p: Point) -> bool {
        self.min.x <= p.x <= self.max.x && self.min.y <= p.y <= self.max.y
    }
}

/// The smaller of two coordinates.
pub open spec fn low(a: i64, b: i64) -> i64 {
    if a <= b {
        a
    } else {
        b
    }
}

/// The greater of two coordinates.
pub open spec fn top(a: i64, b: i64) -> i64 {
    if a >= b {
        a
    } else {
        b
    }
}

pub fn low_of(a: i64, b: i64) -> (res: i64)
    ensures
        res == low(a, b),
{
    if a <= b {
        a
    } else {
        b
    }
}

pub fn top_of(a: i64, b: i64) -> (res: i64)
    ensures
        res == top(a, b),
{
    if a >= b {
        a
    } else {
        b
    }
}

/// The box spanned by the corners of two boxes.
pub open spec fn spanned(a: Bbox, b: Bbox) -> Bbox {
    Bbox {
        min: Point { x: low(a.min.x, b.min.x), y: low(a.min.y, b.min.y) },
        max: Point { x: top(a.max.x, b.max.x), y: top(a.max.y, b.max.y) },
    }
}

pub fn union(a: Bbox, b: Bbox) -> (res: Bbox)
    ensures
        res == spanned(a, b),
{
    Bbox {
        min: Point { x: low_of(a.min.x, b.min.x), y: low_of(a.min.y, b.min.y) },
        max: Point { x: top_of(a.max.x, b.max.x), y: top_of(a.max.y, b.max.y) },
    }
}

/// A point of either box is in the box that both span.
pub proof fn union_holds_both(a: Bbox, b: Bbox, p: Point)
    requires
        a.holds(p) || b.holds(p),
    ensures
        spanned(a, b).holds(p),
{
}

impl Angle90 {
    /// Quarter turns from east.
    pub open spec fn turns(self) -> int {
        match self {
            Angle90::E => 0,
            Angle90::N => 1,
            Angle90::W => 2,
            Angle90::S => 3,
        }
    }

    pub open spec fn turned(self, by: Rot4) -> Angle90 {
        let k = (self.turns() + by.turns()) % 4;
        if k == 0 {
            Angle90::E
        } else if k == 1 {
            Angle90::N
        } else if k == 2 {
            Angle90::W
        } else {
            Angle90::S
        }
    }

    pub open spec fn mirrored(self) -> Angle90 {
        match self {
            Angle90::N => Angle90::S,
            Angle90::S => Angle90::N,
            a => a,
        }
    }

    pub fn rotate(self, by: Rot4) -> (res: Angle90)
        ensures
            res == self.turned(by),
    {
        let s: u32 = match self {
            Angle90::E => 0,
            Angle90::N => 1,
            Angle90::W => 2,
            Angle90::S => 3,
        };
        let r: u32 = match by {
            Rot4::R0 => 0,
            Rot4::R90 => 1,
            Rot4::R180 => 2,
            Rot4::R270 => 3,
        };
        let k: u32 = (s + r) % 4;
        if k == 0 {
            Angle90::E
        } else if k == 1 {
            Angle90::N
        } else if k == 2 {
            Angle90::W
        } else {
            Angle90::S
        }
    }

    fn mirror(self) -> (res: Angle90)
        ensures
            res == self.mirrored(),
    {
        match self {
            Angle90::N => Angle90::S,
            Angle90::S => Angle90::N,
            a => a,
        }
    }
}

impl Rot4 {
    pub open spec fn turns(self) -> int {
        match self {
            Rot4::R0 => 0,
            Rot4::R90 => 1,
            Rot4::R180 => 2,
            Rot4::R270 => 3,
        }
    }
}

impl Trans {
    pub fn translate(disp: Vec2) -> (res: Trans)
        ensures
            res == (Trans { rot: Rot4::R0, mirror: false, disp }),
    {
        Trans { rot: Rot4::R0, mirror: false, disp }
    }

    /// Where the point (`x`, `y`) comes to lie.
    pub open spec fn moved(self, x: int, y: int) -> (int, int) {
        let v = if self.mirror {
            -y
        } else {
            y
        };
        match self.rot {
            Rot4::R0 => (x + self.disp.x, v + self.disp.y),
            Rot4::R90 => (-v + self.disp.x, x + self.disp.y),
            Rot4::R180 => (-x + self.disp.x, -v + self.disp.y),
            Rot4::R270 => (v + self.disp.x, -x + self.disp.y),
        }
    }

    /// Where a point comes to lie, if that can be a point.
    pub open spec fn image(self, p: Point) -> Option<Point> {
        let (x, y) = self.moved(p.x as int, p.y as int);
        point_at(x, y)
    }

    pub fn apply(self, p: Point) -> (res: Option<Point>)
        ensures
            res == self.image(p),
    {
        let x: i128 = p.x as i128;
        let v: i128 = if self.mirror {
            -(p.y as i128)
        } else {
            p.y as i128
        };
        let dx: i128 = self.disp.x as i128;
        let dy: i128 = self.disp.y as i128;
        match self.rot {
            Rot4::R0 => to_point(x + dx, v + dy),
            Rot4::R90 => to_point(-v + dx, x + dy),
            Rot4::R180 => to_point(-x + dx, -v + dy),
            Rot4::R270 => to_point(v + dx, -x + dy),
        }
    }

    /// The box that a box becomes, if all its corners can be points; an empty box
    /// stays as it is.
    pub open spec fn image_box(self, b: Bbox) -> Option<Bbox> {
        if b.empty() {
            Some(b)
        } else {
            match (self.image(b.min), self.image(b.max)) {
                (Some(p), Some(q)) => Some(
                    Bbox {
                        min: Point { x: low(p.x, q.x), y: low(p.y, q.y) },
                        max: Point { x: top(p.x, q.x), y: top(p.y, q.y) },
                    },
                ),
                _ => None,
            }
        }
    }

    pub fn apply_bbox(self, b: Bbox) -> (res: Option<Bbox>)
        ensures
            res == self.image_box(b),
    {
        if b.is_empty() {
            return Some(b);
        }
        match (self.apply(b.min), self.apply(b.max)) {
            (Some(p), Some(q)) => Some(
                Bbox {
                    min: Point { x: low_of(p.x, q.x), y: low_of(p.y, q.y) },
                    max: Point { x: top_of(p.x, q.x), y: top_of(p.y, q.y) },
                },
            ),
            _ => None,
        }
    }
}

/// A move takes every point of a box into the box that the box becomes.
pub proof fn box_image_holds_point_images(t: Trans, b: Bbox, p: Point)
    requires
        b.holds(p),
        t.image_box(b) is Some,
    ensures
        t.image(p) matches Some(q) && t.image_box(b)->0.holds(q),
{
}

/// A move keeps the extents of a box, or exchanges them.
pub proof fn box_image_keeps_extents(t: Trans, b: Bbox)
    requires
        t.image_box(b) is Some,
        !b.empty(),
    ensures
        t.rot is R0 || t.rot is R180 ==> t.image_box(b)->0.wide() == b.wide()
            && t.image_box(b)->0.high() == b.high(),
        t.rot is R90 || t.rot is R270 ==> t.image_box(b)->0.wide() == b.high()
            && t.image_box(b)->0.high() == b.wide(),
{
}

// ── ports and shapes ───────────────────────────────────────────────

/// A layer of a layout library.
#[verifier::external_type_specification]
#[verifier::external_body]
pub struct ExLayerIndex(klayout_core::LayerIndex);

/// A place where a cell can be connected.
#[derive(Debug)]
pub struct Port {
    pub name: String,
    pub kind: u32,
    pub center: Point,
    pub angle: Angle90,
    pub width: i64,
    pub layer: LayerIndex,
}

#[verifier::ext_equal]
pub struct PortModel {
    pub name: Seq<char>,
    pub kind: u32,
    pub center: Point,
    pub angle: Angle90,
    pub width: i64,
    pub layer: LayerIndex,
}

impl Port {
    pub open spec fn model(self) -> PortModel {
        PortModel {
            name: self.name@,
            kind: self.kind,
            center: self.center,
            angle: self.angle,
            width: self.width,
            layer: self.layer,
        }
    }

    /// The port after a move, if its centre can be a point.
    pub fn transform(&self, t: Trans) -> (res: Option<Port>)
        ensures
            match res {
                Some(p) => self.model().moved(t) == Some(p.model()),
                None => self.model().moved(t) is None,
            },
    {
        match t.apply(self.center) {
            None => None,
            Some(center) => {
                let facing = if t.mirror {
                    self.angle.mirror()
                } else {
                    self.angle
                };
                Some(
                    Port {
                        name: self.name.clone(),
                        kind: self.kind,
                        center,
                        angle: facing.rotate(t.rot),
                        width: self.width,
                        layer: self.layer,
                    },
                )
            },
        }
    }

    pub fn duplicate(&self) -> (res: Port)
        ensures
            res.model() == self.model(),
    {
        Port {
            name: self.name.clone(),
            kind: self.kind,
            center: self.center,
            angle: self.angle,
            width: self.width,
            layer: self.layer,
        }
    }
}

impl PortModel {
    pub open spec fn moved(self, t: Trans) -> Option<PortModel> {
        match t.image(self.center) {
            None => None,
            Some(center) => Some(
                PortModel {
                    name: self.name,
                    kind: self.kind,
                    center,
                    angle: (if t.mirror {
                        self.angle.mirrored()
                    } else {
                        self.angle
                    }).turned(t.rot),
                    width: self.width,
                    layer: self.layer,
                },
            ),
        }
    }
}

pub open spec fn port_models(s: Seq<Port>) -> Seq<PortModel> {
    s.map_values(|p: Port| p.model())
}

/// Half of a width, rounded towards zero.
pub open spec fn half(w: i64) -> int {
    if w >= 0 {
        w as int / 2
    } else {
        -(-(w as int) / 2)
    }
}

pub fn half_of(w: i64) -> (res: i128)
    ensures
        res == half(w),
        -0x4000_0000_0000_0000 <= res <= 0x4000_0000_0000_0000,
{
    if w >= 0 {
        (w / 2) as i128
    } else {
        let n: i128 = -(w as i128);
        -(n / 2)
    }
}

/// A wire's centre line, with flat ends.
#[derive(Debug)]
pub struct Path {
    pub points: Vec<Point>,
    pub width: i64,
}

/// What lies on a layer.
#[derive(Debug)]
pub enum Shape {
    Box(Bbox),
    Path(Path),
}

#[verifier::ext_equal]
pub enum ShapeModel {
    Box(Bbox),
    Path(Seq<Point>, i64),
}

impl Shape {
    pub open spec fn model(self) -> ShapeModel {
        match self {
            Shape::Box(b) => ShapeModel::Box(b),
            Shape::Path(p) => ShapeModel::Path(p.points@, p.width),
        }
    }
}

pub open spec fn shape_models(s: Seq<Shape>) -> Seq<ShapeModel> {
    s.map_values(|x: Shape| x.model())
}

/// Whether a point can be moved by half a width in all directions.
pub open spec fn margin_fits(p: Point, w: i64) -> bool {
    &&& is_coord(p.x - half(w))
    &&& is_coord(p.x + half(w))
    &&& is_coord(p.y - half(w))
    &&& is_coord(p.y + half(w))
}

/// Whether the corners of the box around a shape can be points.
pub open spec fn outline_fits(s: ShapeModel) -> bool {
    match s {
        ShapeModel::Box(_) => true,
        ShapeModel::Path(points, w) => margins_fit(points, w),
    }
}

pub open spec fn margins_fit(points: Seq<Point>, w: i64) -> bool {
    forall|i: int| 0 <= i < points.len() ==> margin_fits(#[trigger] points[i], w)
}

fn has_margin(p: Point, w: i64) -> (res: bool)
    ensures
        res == margin_fits(p, w),
{
    let h: i128 = half_of(w);
    let x: i128 = p.x as i128;
    let y: i128 = p.y as i128;
    to_coord(x - h).is_some() && to_coord(x + h).is_some() && to_coord(y - h).is_some()
        && to_coord(y + h).is_some()
}

fn path_fits(p: &Path) -> (res: bool)
    ensures
        res == margins_fit(p.points@, p.width),
{
    let mut i: usize = 0;
    while i < p.points.len()
        invariant
            i <= p.points@.len(),
            forall|k: int| 0 <= k < i ==> margin_fits(#[trigger] p.points@[k], p.width),
        decreases p.points@.len() - i,
    {
        if !has_margin(p.points[i], p.width) {
            assert(!margin_fits(p.points@[i as int], p.width));
            return false;
        }
        i = i + 1;
    }
    true
}

impl Shape {
    pub fn fits(&self) -> (res: bool)
        ensures
            res == outline_fits(self.model()),
    {
        match self {
            Shape::Box(_) => true,
            Shape::Path(p) => path_fits(p),
        }
    }
}

/// The step ahead in a direction.
pub open spec fn ahead(a: Angle90) -> (int, int) {
    match a {
        Angle90::E => (1, 0),
        Angle90::N => (0, 1),
        Angle90::W => (-1, 0),
        Angle90::S => (0, -1),
    }
}

/// A moved port keeps what it is and faces where the move takes the point in front of it.
pub proof fn ports_turn_with_what_they_face(p: PortModel, t: Trans)
    requires
        p.moved(t) is Some,
    ensures
        ({
            let q = p.moved(t)->0;
            let (dx, dy) = ahead(p.angle);
            let (ex, ey) = ahead(q.angle);
            &&& q.name == p.name && q.kind == p.kind && q.width == p.width && q.layer == p.layer
            &&& t.moved(p.center.x as int, p.center.y as int) == (
                q.center.x as int,
                q.center.y as int,
            )
            &&& t.moved(p.center.x + dx, p.center.y + dy) == (q.center.x + ex, q.center.y + ey)
        }),
{
}

/// A move takes the origin to its displacement and a step to the right to one in the
/// direction of its turn. A step up goes a quarter turn to the left of that, or, where the
/// move mirrors, to the right.
pub proof fn moves_turn_steps(t: Trans, x: int, y: int)
    ensures
        t.moved(0, 0) == (t.disp.x as int, t.disp.y as int),
        ({
            let (ox, oy) = t.moved(x, y);
            let (rx, ry) = t.moved(x + 1, y);
            let (ux, uy) = t.moved(x, y + 1);
            let (dx, dy) = match t.rot {
                Rot4::R0 => (1int, 0int),
                Rot4::R90 => (0int, 1int),
                Rot4::R180 => (-1int, 0int),
                Rot4::R270 => (0int, -1int),
            };
            &&& rx - ox == dx && ry - oy == dy
            &&& !t.mirror ==> ux - ox == -dy && uy - oy == dx
            &&& t.mirror ==> ux - ox == dy && uy - oy == -dx
        }),
{
}

} // verus!
