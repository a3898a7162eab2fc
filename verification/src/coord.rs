//! Coordinate lists inside the block of a sheet item.

use vstd::prelude::*;
use vstd::string::StringExecFns;
use crate::node::{parse_sexp, parsed};
use crate::numeral::{coordinate, coordinate_text, get_numeral, numeral, pair, Point, PointText};
use crate::scan::{block_end, block_starts, find_balanced_block, find_block_starts, offsets};
use crate::symbols::block_text;
use crate::text::utf8;

verus! {

/// The first list headed `tag` in a block, at any depth.
pub open spec fn coord_range(block: Seq<u8>, tag: Seq<u8>) -> Option<(int, int)> {
    let starts = block_starts(block, tag);
    if starts.len() == 0 {
        None
    } else {
        match block_end(block, starts[0]) {
            Some(end) => Some((starts[0], end)),
            None => None,
        }
    }
}

/// The numbers of a coordinate list, as they are written.
pub struct CoordText {
    pub at: PointText,
    pub rotation: Option<String>,
}

/// The numbers of a coordinate list as a mathematical value.
pub struct Coord {
    pub at: Point,
    pub rotation: Option<Seq<u8>>,
}

/// The bytes of an optional text.
pub open spec fn opt_bytes(s: Option<String>) -> Option<Seq<u8>> {
    match s {
        Some(t) => Some(utf8(t@)),
        None => None,
    }
}

impl View for CoordText {
    type V = Coord;

    open spec fn view(&self) -> Coord {
        Coord { at: self.at@, rotation: opt_bytes(self.rotation) }
    }
}

/// The numbers of a coordinate list that stands in `list`.
pub open spec fn read_coord(list: Seq<u8>) -> Option<Coord> {
    match parsed(list) {
        Some(t) => match pair(t) {
            Some(at) => Some(Coord { at, rotation: numeral(t, 3) }),
            None => None,
        },
        None => None,
    }
}

/// The first list headed `tag` in a block.
pub fn coord_span(block: &str, tag: &str) -> (r: Option<(usize, usize)>)
    ensures
        match r {
            Some((a, e)) => {
                &&& coord_range(utf8(block@), utf8(tag@)) == Some((a as int, e as int))
                &&& block_end(utf8(block@), a as int) == Some(e as int)
            },
            None => coord_range(utf8(block@), utf8(tag@)) is None,
        },
{
    let starts = find_block_starts(block, tag);
    if starts.len() == 0 {
        return None;
    }
    assert(offsets(starts@)[0] == starts@[0] as int);
    find_balanced_block(block, starts[0])
}

/// The numbers of the coordinate list that stands at a range of a block.
pub fn coord_numbers(block: &str, start: usize, end: usize) -> (r: Option<CoordText>)
    requires
        block_end(utf8(block@), start as int) == Some(end as int),
    ensures
        match r {
            Some(c) => read_coord(utf8(block@).subrange(start as int, end as int)) == Some(c@),
            None => read_coord(utf8(block@).subrange(start as int, end as int)) is None,
        },
{
    match parse_sexp(block_text(block, start, end)) {
        Ok(t) => match crate::numeral::node_pair(&t) {
            Some(at) => {
                let rotation = match get_numeral(&t, 3) {
                    Some(r) => Some(r.to_owned()),
                    None => None,
                };
                Some(CoordText { at, rotation })
            },
            None => None,
        },
        Err(_) => None,
    }
}

/// A coordinate list as it is written, from fixed-point numbers.
pub open spec fn coord_list(
    tag: Seq<u8>,
    x: Seq<u8>,
    y: Seq<u8>,
    rotation: Option<Seq<u8>>,
) -> Seq<u8> {
    let at = utf8("("@) + tag + utf8(" "@) + coordinate(x) + utf8(" "@) + coordinate(y);
    match rotation {
        Some(r) => at + utf8(" "@) + coordinate(r) + utf8(")"@),
        None => at + utf8(")"@),
    }
}

/// A coordinate list as it is written, from fixed-point numbers.
pub fn coord_text(tag: &str, x: &str, y: &str, rotation: Option<&str>) -> (r: String)
    ensures
        utf8(r@) == coord_list(
            utf8(tag@),
            utf8(x@),
            utf8(y@),
            match rotation {
                Some(t) => Some(utf8(t@)),
                None => None,
            },
        ),
{
    let xs = coordinate_text(x);
    let ys = coordinate_text(y);
    let mut r = String::new();
    r.append("(");
    r.append(tag);
    r.append(" ");
    r.append(xs.as_str());
    r.append(" ");
    r.append(ys.as_str());
    proof {
        let a = "("@;
        let b = a + tag@;
        let c = b + " "@;
        let d = c + xs@;
        let e = d + " "@;
        assert(r@ =~= e + ys@);
        crate::text::lemma_utf8_add(e, ys@);
        crate::text::lemma_utf8_add(d, " "@);
        crate::text::lemma_utf8_add(c, xs@);
        crate::text::lemma_utf8_add(b, " "@);
        crate::text::lemma_utf8_add(a, tag@);
    }
    let ghost head = r@;
    if let Some(t) = rotation {
        let rs = coordinate_text(t);
        r.append(" ");
        r.append(rs.as_str());
        proof {
            crate::text::lemma_utf8_add(head + " "@, rs@);
            crate::text::lemma_utf8_add(head, " "@);
        }
    }
    let ghost body = r@;
    r.append(")");
    proof {
        crate::text::lemma_utf8_add(body, ")"@);
    }
    r
}

/// New numbers for a coordinate list, each as a fixed-point number.
pub struct FixedCoord {
    pub x: String,
    pub y: String,
    pub rotation: String,
}

/// A coordinate list with new numbers, with a rotation where `turned` says so.
pub open spec fn fixed_list(tag: Seq<u8>, fixed: FixedCoord, turned: bool) -> Seq<u8> {
    coord_list(
        tag,
        utf8(fixed.x@),
        utf8(fixed.y@),
        if turned {
            Some(utf8(fixed.rotation@))
        } else {
            None
        },
    )
}

/// A coordinate list with new numbers, with a rotation where `turned` says so.
pub fn fixed_text(tag: &str, fixed: &FixedCoord, turned: bool) -> (r: String)
    ensures
        utf8(r@) == fixed_list(utf8(tag@), *fixed, turned),
{
    let rotation = if turned {
        Some(fixed.rotation.as_str())
    } else {
        None
    };
    coord_text(tag, fixed.x.as_str(), fixed.y.as_str(), rotation)
}

/// A coordinate list to be rewritten: where it stands, and its numbers.
pub struct CoordSite {
    pub start: usize,
    pub end: usize,
    pub tag: &'static str,
    pub numbers: CoordText,
}

/// A coordinate list to be rewritten, as a mathematical value.
pub struct Site {
    pub start: int,
    pub end: int,
    pub tag: Seq<u8>,
    pub numbers: Coord,
}

impl View for CoordSite {
    type V = Site;

    open spec fn view(&self) -> Site {
        Site {
            start: self.start as int,
            end: self.end as int,
            tag: utf8(self.tag@),
            numbers: self.numbers@,
        }
    }
}

/// Coordinate lists to be rewritten, as mathematical values.
pub open spec fn site_views(v: Seq<CoordSite>) -> Seq<Site> {
    v.map_values(|s: CoordSite| s@)
}

/// Every site is a block of the text.
pub open spec fn sites_fit(s: Seq<u8>, sites: Seq<Site>) -> bool {
    forall|i: int|
        0 <= i < sites.len() ==> block_end(s, (#[trigger] sites[i]).start) == Some(sites[i].end)
}

} // verus!
