//! Fractal cell addressing: cells, their text keys, and column paths.

use vstd::prelude::*;
use crate::text::{
    decimal, lemma_decimal_no_colon, lemma_decimal_roundtrip, lemma_split_colon_append_colon,
    lemma_split_colon_append_plain, parse_unsigned, parse_unsigned_chars, push_decimal, split_colon,
    split_colon_chars, str_chars,
};

verus! {

/// A single cell in the fractal grid at a given layer.
#[derive(Debug, Clone, Copy, PartialEq, Eq, Hash, Structural)]
pub struct CellCoord {
    pub layer: u8,
    pub x: u16,
    pub y: u16,
}

/// The text key of a cell, `layer:x:y` in decimal.
pub open spec fn cell_text(c: CellCoord) -> Seq<char> {
    decimal(c.layer as nat) + seq![':'] + decimal(c.x as nat) + seq![':'] + decimal(c.y as nat)
}

/// How a text key reads back as a cell: exactly three colon-separated
/// unsigned decimals that fit a `u8`, a `u16` and a `u16`.
pub open spec fn parse_cell_text(s: Seq<char>) -> Option<CellCoord> {
    let parts = split_colon(s);
    if parts.len() != 3 {
        None
    } else {
        match (
            parse_unsigned(parts[0], 255),
            parse_unsigned(parts[1], 65535),
            parse_unsigned(parts[2], 65535),
        ) {
            (Some(l), Some(x), Some(y)) => Some(CellCoord { layer: l as u8, x: x as u16, y: y as u16 }),
            _ => None,
        }
    }
}

proof fn lemma_parse_decimal(n: nat, max: nat)
    requires
        n <= max,
    ensures
        parse_unsigned(decimal(n), max) == Some(n),
{
    lemma_decimal_roundtrip(n);
}

/// Reading a cell's text key gives back the cell.
pub proof fn lemma_cell_text_roundtrip(c: CellCoord)
    ensures
        parse_cell_text(cell_text(c)) == Some(c),
{
    let dl = decimal(c.layer as nat);
    let dx = decimal(c.x as nat);
    let dy = decimal(c.y as nat);
    lemma_decimal_no_colon(c.layer as nat);
    lemma_decimal_no_colon(c.x as nat);
    lemma_decimal_no_colon(c.y as nat);
    let e = Seq::<char>::empty();
    lemma_split_colon_append_plain(e, dl);
    assert(e + dl =~= dl);
    assert(split_colon(e) == seq![e]);
    assert(split_colon(dl) =~= seq![dl]);
    let s1 = dl.push(':');
    lemma_split_colon_append_colon(dl);
    lemma_split_colon_append_plain(s1, dx);
    let s2 = (s1 + dx).push(':');
    lemma_split_colon_append_colon(s1 + dx);
    lemma_split_colon_append_plain(s2, dy);
    assert(split_colon(s1) =~= seq![dl, e]);
    assert(split_colon(s1 + dx) =~= seq![dl, dx]);
    assert(split_colon(s2) =~= seq![dl, dx, e]);
    assert(split_colon(s2 + dy) =~= seq![dl, dx, dy]);
    assert(cell_text(c) =~= s2 + dy);
    lemma_parse_decimal(c.layer as nat, 255);
    lemma_parse_decimal(c.x as nat, 65535);
    lemma_parse_decimal(c.y as nat, 65535);
}

/// Different cells have different text keys.
pub proof fn lemma_cell_text_injective(a: CellCoord, b: CellCoord)
    ensures
        cell_text(a) == cell_text(b) ==> a == b,
{
    lemma_cell_text_roundtrip(a);
    lemma_cell_text_roundtrip(b);
}

impl CellCoord {
    pub fn new(layer: u8, x: u16, y: u16) -> (r: Self)
        ensures
            r.layer == layer,
            r.x == x,
            r.y == y,
    {
        CellCoord { layer, x, y }
    }

    pub fn key(&self) -> (r: (u8, u16, u16))
        ensures
            r == (self.layer, self.x, self.y),
    {
        (self.layer, self.x, self.y)
    }

    /// The cell's text key, `layer:x:y`.
    pub fn to_string(&self) -> (r: String)
        ensures
            r@ == cell_text(*self),
    {
        let mut s = String::new();
        push_decimal(&mut s, self.layer as u64);
        s.append(":");
        push_decimal(&mut s, self.x as u64);
        s.append(":");
        push_decimal(&mut s, self.y as u64);
        proof {
            reveal_strlit(":");
            assert(s@ =~= cell_text(*self));
        }
        s
    }

    /// Reads a cell back from its text key; `Err(())` for anything that is
    /// not three colon-separated decimals in range.
    pub fn parse(s: &str) -> (r: Result<Self, ()>)
        ensures
            match r {
                Ok(c) => parse_cell_text(s@) == Some(c),
                Err(_) => parse_cell_text(s@) is None,
            },
    {
        let chars = str_chars(s);
        let parts = split_colon_chars(&chars);
        if parts.len() != 3 {
            return Err(());
        }
        let l = parse_unsigned_chars(&parts[0], 255);
        let x = parse_unsigned_chars(&parts[1], 65535);
        let y = parse_unsigned_chars(&parts[2], 65535);
        match (l, x, y) {
            (Some(l), Some(x), Some(y)) => Ok(CellCoord { layer: l as u8, x: x as u16, y: y as u16 }),
            _ => Err(()),
        }
    }
}

impl std::str::FromStr for CellCoord {
    type Err = ();

    fn from_str(s: &str) -> (r: Result<Self, Self::Err>)
        ensures
            match r {
                Ok(c) => parse_cell_text(s@) == Some(c),
                Err(_) => parse_cell_text(s@) is None,
            },
    {
        CellCoord::parse(s)
    }
}

/// Variable-length recursive address through fractal layers.
#[derive(Debug, Clone, PartialEq, Eq, Hash)]
pub struct ColumnPath(pub Vec<CellCoord>);

impl ColumnPath {
    pub fn from_cell(cell: CellCoord) -> (r: Self)
        ensures
            r.0@ == seq![cell],
    {
        ColumnPath(vec![cell])
    }

    pub fn depth(&self) -> (r: usize)
        ensures
            r == self.0@.len(),
    {
        self.0.len()
    }

    pub fn leaf(&self) -> (r: Option<&CellCoord>)
        ensures
            r == (if self.0@.len() == 0 { None } else { Some(&self.0@.last()) }),
    {
        if self.0.len() == 0 {
            None
        } else {
            Some(&self.0[self.0.len() - 1])
        }
    }
}

impl Default for ColumnPath {
    fn default() -> (r: Self)
        ensures
            r.0@.len() == 0,
    {
        ColumnPath(Vec::new())
    }
}

/// The integer shape of one fractal layer: its index and its cell counts
/// across and down.
#[derive(Debug, Clone, Copy, PartialEq, Eq, Structural)]
pub struct LayerShape {
    pub layer: u8,
    pub width: u16,
    pub height: u16,
}

/// Every cell of a layer, row by row: cell `(x, y)` at position `y * width + x`.
pub fn all_cells(shape: LayerShape) -> (r: Vec<CellCoord>)
    ensures
        r@.len() == shape.width as int * shape.height as int,
        forall|x: int, y: int|
            0 <= x < shape.width && 0 <= y < shape.height ==> r@[#[trigger] (y * shape.width + x)]
                == (CellCoord { layer: shape.layer, x: x as u16, y: y as u16 }),
{
    let w = shape.width;
    let h = shape.height;
    let mut cells: Vec<CellCoord> = Vec::new();
    let mut y: u16 = 0;
    while y < h
        invariant
            w == shape.width,
            h == shape.height,
            y <= h,
            cells@.len() == y as int * w as int,
            forall|xx: int, yy: int|
                0 <= xx < w && 0 <= yy < y ==> cells@[#[trigger] (yy * w + xx)] == (CellCoord {
                    layer: shape.layer,
                    x: xx as u16,
                    y: yy as u16,
                }),
        decreases h - y,
    {
        let mut x: u16 = 0;
        while x < w
            invariant
                w == shape.width,
                h == shape.height,
                y < h,
                x <= w,
                cells@.len() == y as int * w as int + x as int,
                forall|xx: int, yy: int|
                    0 <= xx < w && 0 <= yy < y ==> cells@[#[trigger] (yy * w + xx)] == (CellCoord {
                        layer: shape.layer,
                        x: xx as u16,
                        y: yy as u16,
                    }),
                forall|xx: int|
                    0 <= xx < x ==> cells@[#[trigger] (y * w + xx)] == (CellCoord {
                        layer: shape.layer,
                        x: xx as u16,
                        y: y,
                    }),
            decreases w - x,
        {
            let ghost before = cells@;
            cells.push(CellCoord { layer: shape.layer, x, y });
            proof {
                assert forall|xx: int, yy: int|
                    0 <= xx < w && 0 <= yy < y implies cells@[#[trigger] (yy * w + xx)] == (CellCoord {
                        layer: shape.layer,
                        x: xx as u16,
                        y: yy as u16,
                    }) by {
                    assert(yy * w + xx < y * w) by (nonlinear_arith)
                        requires
                            0 <= xx < w,
                            0 <= yy < y,
                    ;
                    assert(before[yy * w + xx] == cells@[yy * w + xx]);
                }
                assert forall|xx: int| 0 <= xx < x + 1 implies cells@[#[trigger] (y * w + xx)] == (
                CellCoord { layer: shape.layer, x: xx as u16, y: y }) by {
                    if xx < x {
                        assert(before[y * w + xx] == cells@[y * w + xx]);
                    }
                }
            }
            x = x + 1;
        }
        proof {
            assert forall|xx: int, yy: int|
                0 <= xx < w && 0 <= yy < y + 1 implies cells@[#[trigger] (yy * w + xx)] == (CellCoord {
                    layer: shape.layer,
                    x: xx as u16,
                    y: yy as u16,
                }) by {
                if yy == y {
                    assert(cells@[y * w + xx] == (CellCoord { layer: shape.layer, x: xx as u16, y: y }));
                }
            }
            assert((y + 1) as int * w as int == y as int * w as int + w as int) by (nonlinear_arith);
        }
        y = y + 1;
    }
    assert(h as int * w as int == w as int * h as int) by (nonlinear_arith);
    cells
}

/// Cell `c` lies on the layer and within `radius` of `center` on both axes.
pub open spec fn in_box(shape: LayerShape, center: CellCoord, radius: u16, c: CellCoord) -> bool {
    &&& c.layer == shape.layer
    &&& c.x < shape.width
    &&& c.y < shape.height
    &&& center.x - radius <= c.x <= center.x + radius
    &&& center.y - radius <= c.y <= center.y + radius
}

/// The cells of a layer within `radius` (a square box) of `center`, each
/// once, row by row.
pub fn cells_around(shape: LayerShape, center: CellCoord, radius: u16) -> (r: Vec<CellCoord>)
    ensures
        forall|c: CellCoord| r@.contains(c) <==> in_box(shape, center, radius, c),
        forall|i: int, j: int| 0 <= i < j < r@.len() ==> r@[i] != r@[j],
{
    let lo_x: u32 = if center.x >= radius { (center.x - radius) as u32 } else { 0 };
    let lo_y: u32 = if center.y >= radius { (center.y - radius) as u32 } else { 0 };
    let hi_x: u32 = center.x as u32 + radius as u32;
    let hi_y: u32 = center.y as u32 + radius as u32;
    let mut out: Vec<CellCoord> = Vec::new();
    let mut y: u32 = lo_y;
    while y <= hi_y && y < shape.height as u32
        invariant
            lo_y <= y,
            lo_x == (if center.x >= radius { center.x - radius } else { 0 }),
            lo_y == (if center.y >= radius { center.y - radius } else { 0 }),
            hi_x == center.x + radius,
            hi_y == center.y + radius,
            forall|c: CellCoord| out@.contains(c) <==> in_box(shape, center, radius, c) && c.y < y,
            forall|i: int, j: int| 0 <= i < j < out@.len() ==> out@[i] != out@[j],
        decreases hi_y + 1 - y,
    {
        let mut x: u32 = lo_x;
        while x <= hi_x && x < shape.width as u32
            invariant
                lo_y <= y <= hi_y,
                y < shape.height,
                lo_x <= x,
                lo_x == (if center.x >= radius { center.x - radius } else { 0 }),
                hi_x == center.x + radius,
                lo_y == (if center.y >= radius { center.y - radius } else { 0 }),
                hi_y == center.y + radius,
                forall|c: CellCoord|
                    out@.contains(c) <==> in_box(shape, center, radius, c) && (c.y < y || (c.y == y
                        && c.x < x)),
                forall|i: int, j: int| 0 <= i < j < out@.len() ==> out@[i] != out@[j],
            decreases hi_x + 1 - x,
        {
            let c = CellCoord { layer: shape.layer, x: x as u16, y: y as u16 };
            let ghost before = out@;
            out.push(c);
            proof {
                assert forall|d: CellCoord| out@.contains(d) <==> (before.contains(d) || d == c) by {
                    if out@.contains(d) {
                        let k = choose|k: int| 0 <= k < out@.len() && out@[k] == d;
                        if k < before.len() {
                            assert(before[k] == d);
                        }
                    }
                    if before.contains(d) {
                        let k = choose|k: int| 0 <= k < before.len() && before[k] == d;
                        assert(out@[k] == d);
                    }
                    if d == c {
                        assert(out@[before.len() as int] == c);
                    }
                }
                assert(in_box(shape, center, radius, c));
                assert forall|d: CellCoord|
                    out@.contains(d) <==> in_box(shape, center, radius, d) && (d.y < y || (d.y == y
                        && d.x < x + 1)) by {
                    if in_box(shape, center, radius, d) && d.y == y && d.x == x {
                        assert(d == c);
                    }
                    if in_box(shape, center, radius, d) && (d.y < y || (d.y == y && d.x < x)) {
                        assert(before.contains(d));
                    }
                    if before.contains(d) {
                        assert(in_box(shape, center, radius, d) && (d.y < y || (d.y == y && d.x < x)));
                    }
                }
                assert forall|i: int, j: int| 0 <= i < j < out@.len() implies out@[i] != out@[j] by {
                    if j == before.len() {
                        assert(before.contains(before[i]));
                    }
                }
            }
            x = x + 1;
        }
        y = y + 1;
    }
    out
}

} // verus!
