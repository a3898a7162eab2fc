//! Moving everything in a region of a sheet, connections and all.
//!
//! Items are edited as the blocks of text they are: uuids and designators
//! stay byte for byte, and every item that moves moves alike.

use vstd::prelude::*;
use crate::args::{member, number_arg, refuses, require_f64, ErrorKind, Json, ToolError};
use crate::alike::{
    alike, all_exchanging, coord_head, exchanging, law_edits_read_alike, lemma_block_head,
    lemma_block_node, lemma_block_of_itself, lemma_coord_heads, lemma_edited_block,
    lemma_list_bytes, lemma_list_site, lemma_site_exchanging, site_good,
};
use crate::coord::{
    coord_numbers, coord_range, coord_span, fixed_list, fixed_text, read_coord, site_views,
    sites_fit, Coord, CoordSite, CoordText, FixedCoord, Site,
};
use crate::edit::{all_fit, apply_edits, edit_views, edited, Edit, SexpEdit};
use crate::graphics::{out_of_range, written_plainly};
use crate::node::{
    found, found_all, found_text, head, parse_sexp, parsed, ref_trees, same_bytes, Sexp, SexpNode,
};
use crate::num::{valid_number, Num};
use crate::numeral::{
    get_numeral, node_pair, node_xy, numeral, opt_point, pair, point, Point, PointText,
};
use crate::scan::{
    block_end, block_starts, direct_children, find_balanced_block, find_block_starts,
    find_direct_child_blocks, lemma_direct_children, offsets, span, spans,
};
use crate::symbols::{block_text, lemma_block_cut};
use crate::text::{byte_len, join2, join3, occurs_at, starts_with, utf8};

verus! {

// ── The region ───────────────────────────────────────────────────────────────

/// A region of a sheet, edges included.
#[derive(Debug, Clone, Copy)]
pub struct Box2 {
    pub x1: Num,
    pub y1: Num,
    pub x2: Num,
    pub y2: Num,
}

impl Box2 {
    /// The point lies in the region.
    pub open spec fn holds(self, p: (Num, Num)) -> bool {
        self.x1.le(p.0) && p.0.le(self.x2) && self.y1.le(p.1) && p.1.le(self.y2)
    }

    /// Whether a point lies in the region.
    pub fn contains(self, p: (Num, Num)) -> (r: bool)
        ensures
            r == self.holds(p),
    {
        self.x1.at_most(p.0) && p.0.at_most(self.x2) && self.y1.at_most(p.1) && p.1.at_most(self.y2)
    }
}

/// A region and how far to move it.
pub struct RegionRequest {
    pub area: Box2,
    pub dx: Num,
    pub dy: Num,
}

/// Why a number of a request is refused, if it is.
pub open spec fn number_refusal(args: Json, name: Seq<char>, e: ToolError) -> bool {
    match number_arg(member(args, name)) {
        Some(n) => !n.value.in_range() && e.kind is None && e.message@ == out_of_range(name),
        None => refuses(e, name, "missing or not a number"@),
    }
}

/// A number of a request can be a coordinate.
pub open spec fn number_good(args: Json, name: Seq<char>) -> bool {
    number_arg(member(args, name)) matches Some(n) && n.value.in_range()
}

/// The numbers of a request, in the order in which they are read.
pub open spec fn request_names() -> Seq<Seq<char>> {
    seq!["x1"@, "y1"@, "x2"@, "y2"@, "dx"@, "dy"@]
}

fn request_number(args: &Json, name: &str) -> (r: Result<Num, ToolError>)
    ensures
        match r {
            Ok(n) => number_good(*args, name@) && n == (number_arg(member(*args, name@))->0).value,
            Err(e) => !number_good(*args, name@) && number_refusal(*args, name@, e),
        },
{
    match require_f64(args, name) {
        Ok(n) => match valid_number(n, name) {
            Ok(n) => Ok(n),
            Err(m) => Err(ToolError::plain(m)),
        },
        Err(e) => Err(e),
    }
}

/// The first number of a request, from the `i`th on, that cannot be a coordinate.
pub open spec fn first_bad(args: Json, i: int) -> Option<Seq<char>>
    decreases 6 - i,
{
    if i < 0 || i >= 6 {
        None
    } else if !number_good(args, request_names()[i]) {
        Some(request_names()[i])
    } else {
        first_bad(args, i + 1)
    }
}

/// Reads a region and how far to move it: six numbers that can be
/// coordinates, and bounds in order.
pub fn region_request(args: &Json) -> (r: Result<RegionRequest, ToolError>)
    ensures
        match r {
            Ok(q) => {
                &&& first_bad(*args, 0) is None
                &&& q.area.x1 == (number_arg(member(*args, "x1"@))->0).value
                &&& q.area.y1 == (number_arg(member(*args, "y1"@))->0).value
                &&& q.area.x2 == (number_arg(member(*args, "x2"@))->0).value
                &&& q.area.y2 == (number_arg(member(*args, "y2"@))->0).value
                &&& q.dx == (number_arg(member(*args, "dx"@))->0).value
                &&& q.dy == (number_arg(member(*args, "dy"@))->0).value
                &&& q.area.x1.lt(q.area.x2)
                &&& q.area.y1.lt(q.area.y2)
            },
            Err(e) => match first_bad(*args, 0) {
                Some(name) => number_refusal(*args, name, e),
                None => {
                    &&& e.kind is None
                    &&& e.message@ == "region bounds must satisfy x1 < x2 and y1 < y2"@
                    &&& !((number_arg(member(*args, "x1"@))->0).value.lt(
                        (number_arg(member(*args, "x2"@))->0).value,
                    ) && (number_arg(member(*args, "y1"@))->0).value.lt(
                        (number_arg(member(*args, "y2"@))->0).value,
                    ))
                },
            },
        },
{
    proof {
        reveal_with_fuel(first_bad, 7);
    }
    let x1 = match request_number(args, "x1") {
        Ok(n) => n,
        Err(e) => {
            return Err(e);
        },
    };
    let y1 = match request_number(args, "y1") {
        Ok(n) => n,
        Err(e) => {
            return Err(e);
        },
    };
    let x2 = match request_number(args, "x2") {
        Ok(n) => n,
        Err(e) => {
            return Err(e);
        },
    };
    let y2 = match request_number(args, "y2") {
        Ok(n) => n,
        Err(e) => {
            return Err(e);
        },
    };
    let dx = match request_number(args, "dx") {
        Ok(n) => n,
        Err(e) => {
            return Err(e);
        },
    };
    let dy = match request_number(args, "dy") {
        Ok(n) => n,
        Err(e) => {
            return Err(e);
        },
    };
    if !x1.below(x2) || !y1.below(y2) {
        return Err(
            ToolError::plain("region bounds must satisfy x1 < x2 and y1 < y2".to_owned()),
        );
    }
    Ok(RegionRequest { area: Box2 { x1, y1, x2, y2 }, dx, dy })
}

// ── Items ────────────────────────────────────────────────────────────────────

/// What an item of a sheet is.
#[derive(Debug, Clone, Copy, PartialEq, Eq, Structural)]
pub enum RegionKind {
    Wire,
    Label,
    GlobalLabel,
    HierarchicalLabel,
    Junction,
    NoConnect,
    Rectangle,
    Text,
    TextBox,
    Symbol,
    PowerSymbol,
}

impl RegionKind {
    /// The name of such items in a report.
    pub open spec fn label(self) -> Seq<char> {
        match self {
            RegionKind::Wire => "wire"@,
            RegionKind::Label => "label"@,
            RegionKind::GlobalLabel => "global_label"@,
            RegionKind::HierarchicalLabel => "hierarchical_label"@,
            RegionKind::Junction => "junction"@,
            RegionKind::NoConnect => "no_connect"@,
            RegionKind::Rectangle => "rectangle"@,
            RegionKind::Text => "text"@,
            RegionKind::TextBox => "text_box"@,
            RegionKind::Symbol => "symbol"@,
            RegionKind::PowerSymbol => "power_symbol"@,
        }
    }

    /// The name of such items in a report.
    pub fn name(self) -> (r: &'static str)
        ensures
            r@ == self.label(),
    {
        match self {
            RegionKind::Wire => "wire",
            RegionKind::Label => "label",
            RegionKind::GlobalLabel => "global_label",
            RegionKind::HierarchicalLabel => "hierarchical_label",
            RegionKind::Junction => "junction",
            RegionKind::NoConnect => "no_connect",
            RegionKind::Rectangle => "rectangle",
            RegionKind::Text => "text",
            RegionKind::TextBox => "text_box",
            RegionKind::Symbol => "symbol",
            RegionKind::PowerSymbol => "power_symbol",
        }
    }
}

/// The kind that a head names; what a `symbol` is depends on its library.
pub open spec fn kind_headed(tag: Seq<u8>) -> Option<RegionKind> {
    if tag == utf8("wire"@) {
        Some(RegionKind::Wire)
    } else if tag == utf8("label"@) {
        Some(RegionKind::Label)
    } else if tag == utf8("global_label"@) {
        Some(RegionKind::GlobalLabel)
    } else if tag == utf8("hierarchical_label"@) {
        Some(RegionKind::HierarchicalLabel)
    } else if tag == utf8("junction"@) {
        Some(RegionKind::Junction)
    } else if tag == utf8("no_connect"@) {
        Some(RegionKind::NoConnect)
    } else if tag == utf8("rectangle"@) {
        Some(RegionKind::Rectangle)
    } else if tag == utf8("text"@) {
        Some(RegionKind::Text)
    } else if tag == utf8("text_box"@) {
        Some(RegionKind::TextBox)
    } else if tag == utf8("symbol"@) {
        Some(RegionKind::Symbol)
    } else {
        None
    }
}

/// The kind of an item; none of what does not move. A symbol must be placed,
/// and one from the power library is a power symbol.
pub open spec fn kind_of(t: Sexp) -> Option<RegionKind> {
    match head(t) {
        Some(tag) => match kind_headed(tag) {
            Some(RegionKind::Symbol) => if found(t, utf8("lib_id"@)) is None {
                None
            } else {
                match found_text(t, utf8("lib_id"@)) {
                    Some(lib) => if occurs_at(lib, utf8("power:"@), 0) {
                        Some(RegionKind::PowerSymbol)
                    } else {
                        Some(RegionKind::Symbol)
                    },
                    None => Some(RegionKind::Symbol),
                }
            },
            k => k,
        },
        None => None,
    }
}

/// The two ends of a wire.
pub open spec fn wire_ends(t: Sexp) -> Option<(Point, Point)> {
    let ends = match found(t, utf8("pts"@)) {
        Some(pts) => found_all(pts, utf8("xy"@)),
        None => Seq::empty(),
    };
    let (a, b) = if ends.len() >= 2 {
        (pair(ends[0]), pair(ends[1]))
    } else {
        (point(t, utf8("start"@)), point(t, utf8("end"@)))
    };
    match (a, b) {
        (Some(a), Some(b)) => Some((a, b)),
        _ => None,
    }
}

/// An item of a sheet: where it stands in the text, what it is, and the one
/// or two points that decide whether it is in a region.
pub struct RegionItem {
    pub start: usize,
    pub end: usize,
    pub kind: RegionKind,
    pub uuid: String,
    pub a: Option<PointText>,
    pub b: Option<PointText>,
}

/// An item as a mathematical value.
#[verifier::ext_equal]
pub struct Item {
    pub span: (int, int),
    pub kind: RegionKind,
    pub uuid: Seq<u8>,
    pub a: Option<Point>,
    pub b: Option<Point>,
}

impl View for RegionItem {
    type V = Item;

    open spec fn view(&self) -> Item {
        Item {
            span: (self.start as int, self.end as int),
            kind: self.kind,
            uuid: utf8(self.uuid@),
            a: opt_point(self.a),
            b: opt_point(self.b),
        }
    }
}

/// Items as mathematical values.
pub open spec fn item_views(v: Seq<RegionItem>) -> Seq<Item> {
    v.map_values(|i: RegionItem| i@)
}

/// The item that stands in a block. It needs a uuid, and a wire two ends.
pub open spec fn item_of(t: Sexp, b: (int, int)) -> Option<Item> {
    match (kind_of(t), found_text(t, utf8("uuid"@))) {
        (Some(kind), Some(uuid)) => {
            if kind is Wire {
                match wire_ends(t) {
                    Some((p, q)) => Some(
                        Item { span: b, kind, uuid, a: Some(p), b: Some(q) },
                    ),
                    None => None,
                }
            } else if kind is Rectangle {
                Some(
                    Item {
                        span: b,
                        kind,
                        uuid,
                        a: point(t, utf8("start"@)),
                        b: point(t, utf8("end"@)),
                    },
                )
            } else {
                Some(Item { span: b, kind, uuid, a: point(t, utf8("at"@)), b: None })
            }
        },
        _ => None,
    }
}

/// The item that stands in a block of a sheet.
pub open spec fn item_at(s: Seq<u8>, b: (int, int)) -> Option<Item> {
    match parsed(s.subrange(b.0, b.1)) {
        Some(t) => item_of(t, b),
        None => None,
    }
}

/// The items among the first `n` of the blocks.
pub open spec fn items_below(s: Seq<u8>, blocks: Seq<(int, int)>, n: int) -> Seq<Item>
    decreases n,
{
    if n <= 0 {
        Seq::empty()
    } else {
        match item_at(s, blocks[n - 1]) {
            Some(i) => items_below(s, blocks, n - 1).push(i),
            None => items_below(s, blocks, n - 1),
        }
    }
}

/// The items of a sheet that can move, in file order.
pub open spec fn items(s: Seq<u8>) -> Seq<Item> {
    let blocks = direct_children(s, utf8("kicad_sch"@));
    items_below(s, blocks, blocks.len() as int)
}

fn kind_named(tag: &str) -> (r: Option<RegionKind>)
    ensures
        r == kind_headed(utf8(tag@)),
{
    if same_bytes(tag, "wire") {
        Some(RegionKind::Wire)
    } else if same_bytes(tag, "label") {
        Some(RegionKind::Label)
    } else if same_bytes(tag, "global_label") {
        Some(RegionKind::GlobalLabel)
    } else if same_bytes(tag, "hierarchical_label") {
        Some(RegionKind::HierarchicalLabel)
    } else if same_bytes(tag, "junction") {
        Some(RegionKind::Junction)
    } else if same_bytes(tag, "no_connect") {
        Some(RegionKind::NoConnect)
    } else if same_bytes(tag, "rectangle") {
        Some(RegionKind::Rectangle)
    } else if same_bytes(tag, "text") {
        Some(RegionKind::Text)
    } else if same_bytes(tag, "text_box") {
        Some(RegionKind::TextBox)
    } else if same_bytes(tag, "symbol") {
        Some(RegionKind::Symbol)
    } else {
        None
    }
}

/// The kind of an item; none of what does not move.
pub fn item_kind(node: &SexpNode) -> (r: Option<RegionKind>)
    ensures
        r == kind_of(node.tree()),
{
    let kind = match node.head() {
        Some(tag) => kind_named(tag),
        None => None,
    };
    match kind {
        Some(RegionKind::Symbol) => {
            if node.find("lib_id").is_none() {
                return None;
            }
            match node.find_str("lib_id") {
                Some(lib) => if starts_with(lib, "power:") {
                    Some(RegionKind::PowerSymbol)
                } else {
                    Some(RegionKind::Symbol)
                },
                None => Some(RegionKind::Symbol),
            }
        },
        k => k,
    }
}

/// The two ends of a wire.
pub fn wire_points(node: &SexpNode) -> (r: Option<(PointText, PointText)>)
    ensures
        match r {
            Some((p, q)) => wire_ends(node.tree()) == Some((p@, q@)),
            None => wire_ends(node.tree()) is None,
        },
{
    if let Some(pts) = node.find("pts") {
        let ends = pts.find_all("xy");
        if ends.len() >= 2 {
            assert(ref_trees(ends@)[0] == ends@[0].tree());
            assert(ref_trees(ends@)[1] == ends@[1].tree());
            return match (node_pair(ends[0]), node_pair(ends[1])) {
                (Some(p), Some(q)) => Some((p, q)),
                _ => None,
            };
        }
    }
    match (node_xy(node, "start"), node_xy(node, "end")) {
        (Some(p), Some(q)) => Some((p, q)),
        _ => None,
    }
}

fn read_item(node: &SexpNode, start: usize, end: usize) -> (r: Option<RegionItem>)
    ensures
        match r {
            Some(i) => item_of(node.tree(), (start as int, end as int)) == Some(i@),
            None => item_of(node.tree(), (start as int, end as int)) is None,
        },
{
    let kind = match item_kind(node) {
        Some(k) => k,
        None => {
            return None;
        },
    };
    let uuid = match node.find_str("uuid") {
        Some(u) => u.to_owned(),
        None => {
            return None;
        },
    };
    match kind {
        RegionKind::Wire => match wire_points(node) {
            Some((p, q)) => Some(
                RegionItem { start, end, kind, uuid, a: Some(p), b: Some(q) },
            ),
            None => None,
        },
        RegionKind::Rectangle => Some(
            RegionItem {
                start,
                end,
                kind,
                uuid,
                a: node_xy(node, "start"),
                b: node_xy(node, "end"),
            },
        ),
        _ => Some(RegionItem { start, end, kind, uuid, a: node_xy(node, "at"), b: None }),
    }
}

/// The items of a sheet that can move, in file order.
pub fn region_items(content: &str) -> (r: Vec<RegionItem>)
    ensures
        item_views(r@) == items(utf8(content@)),
        forall|k: int|
            0 <= k < r@.len() ==> block_end(utf8(content@), (#[trigger] r@[k]).start as int)
                == Some(r@[k].end as int),
{
    let ghost s = utf8(content@);
    let blocks = find_direct_child_blocks(content, "kicad_sch");
    let ghost all = direct_children(s, utf8("kicad_sch"@));
    proof {
        lemma_direct_children(s, utf8("kicad_sch"@));
    }
    let mut out: Vec<RegionItem> = Vec::new();
    let mut i: usize = 0;
    assert(item_views(out@) =~= items_below(s, all, 0));
    while i < blocks.len()
        invariant
            i <= blocks@.len(),
            s == utf8(content@),
            spans(blocks@) == all,
            forall|k: int|
                0 <= k < all.len() ==> block_end(s, (#[trigger] all[k]).0) == Some(all[k].1),
            item_views(out@) == items_below(s, all, i as int),
            forall|k: int|
                0 <= k < out@.len() ==> block_end(s, (#[trigger] out@[k]).start as int) == Some(
                    out@[k].end as int,
                ),
        decreases blocks@.len() - i,
    {
        let ghost before = out@;
        assert(all[i as int] == span(blocks@[i as int]));
        let (start, end) = blocks[i];
        if let Ok(node) = parse_sexp(block_text(content, start, end)) {
            if let Some(item) = read_item(&node, start, end) {
                out.push(item);
                assert(item_views(out@) =~= item_views(before).push(item@));
            }
        }
        i += 1;
    }
    out
}

// ── Coordinates of an item ───────────────────────────────────────────────────

/// The coordinate lists of an item, or why they cannot be read.
pub open spec fn with_list(
    before: Result<Seq<Site>, Seq<char>>,
    block: Seq<u8>,
    tag: Seq<char>,
) -> Result<Seq<Site>, Seq<char>> {
    match (before, coord_range(block, utf8(tag))) {
        (Ok(sites), Some(r)) => match read_coord(block.subrange(r.0, r.1)) {
            Some(numbers) => Ok(
                sites.push(Site { start: r.0, end: r.1, tag: utf8(tag), numbers }),
            ),
            None => Err("invalid ("@ + tag + ") coordinate"@),
        },
        _ => before,
    }
}

/// The points of a wire, those at the first `n` of the offsets, behind what came before.
pub open spec fn with_points(
    before: Result<Seq<Site>, Seq<char>>,
    block: Seq<u8>,
    starts: Seq<int>,
    n: int,
) -> Result<Seq<Site>, Seq<char>>
    decreases n,
{
    if n <= 0 {
        before
    } else {
        match with_points(before, block, starts, n - 1) {
            Ok(sites) => match block_end(block, starts[n - 1]) {
                Some(end) => match parsed(block.subrange(starts[n - 1], end)) {
                    Some(t) => match (numeral(t, 1), numeral(t, 2)) {
                        (Some(x), Some(y)) => Ok(
                            sites.push(
                                Site {
                                    start: starts[n - 1],
                                    end,
                                    tag: utf8("xy"@),
                                    numbers: Coord { at: Point { x, y }, rotation: None },
                                },
                            ),
                        ),
                        (None, _) => Err("invalid wire x"@),
                        (Some(_), None) => Err("invalid wire y"@),
                    },
                    None => Err("invalid wire point"@),
                },
                None => Err("invalid wire point"@),
            },
            Err(why) => Err(why),
        }
    }
}

/// The anchors of the properties of a symbol, those at the first `n` of the
/// offsets, behind what came before. A property without one is passed over.
pub open spec fn with_properties(
    before: Result<Seq<Site>, Seq<char>>,
    block: Seq<u8>,
    starts: Seq<int>,
    n: int,
) -> Result<Seq<Site>, Seq<char>>
    decreases n,
{
    if n <= 0 {
        before
    } else {
        match with_properties(before, block, starts, n - 1) {
            Ok(sites) => match block_end(block, starts[n - 1]) {
                Some(end) => {
                    let property = block.subrange(starts[n - 1], end);
                    match coord_range(property, utf8("at"@)) {
                        Some(r) => match read_coord(property.subrange(r.0, r.1)) {
                            Some(numbers) => Ok(
                                sites.push(
                                    Site {
                                        start: starts[n - 1] + r.0,
                                        end: starts[n - 1] + r.1,
                                        tag: utf8("at"@),
                                        numbers,
                                    },
                                ),
                            ),
                            None => Err("invalid property anchor"@),
                        },
                        None => Ok(sites),
                    }
                },
                None => Err("invalid symbol property"@),
            },
            Err(why) => Err(why),
        }
    }
}

/// The coordinate lists that place an item: all of a wire's points, a
/// symbol's anchor and those of its properties, both corners of a rectangle,
/// and the anchor of anything else.
pub open spec fn item_sites(block: Seq<u8>, kind: RegionKind) -> Result<Seq<Site>, Seq<char>> {
    let none: Result<Seq<Site>, Seq<char>> = Ok(Seq::empty());
    match kind {
        RegionKind::Wire => {
            let starts = block_starts(block, utf8("xy"@));
            with_points(
                with_list(with_list(none, block, "start"@), block, "end"@),
                block,
                starts,
                starts.len() as int,
            )
        },
        RegionKind::Symbol | RegionKind::PowerSymbol => {
            let starts = block_starts(block, utf8("property"@));
            with_properties(with_list(none, block, "at"@), block, starts, starts.len() as int)
        },
        RegionKind::Rectangle => with_list(with_list(none, block, "start"@), block, "end"@),
        _ => with_list(none, block, "at"@),
    }
}

/// The coordinate lists, or why there are none, and that they are blocks of the text.
pub open spec fn lists(r: Result<Vec<CoordSite>, String>, b: Seq<u8>, expected: Result<
    Seq<Site>,
    Seq<char>,
>) -> bool {
    match r {
        Ok(v) => expected == Ok::<Seq<Site>, Seq<char>>(site_views(v@)) && sites_fit(
            b,
            site_views(v@),
        ),
        Err(m) => expected == Err::<Seq<Site>, Seq<char>>(m@),
    }
}

fn push_list(block: &str, tag: &'static str, sites: Vec<CoordSite>) -> (r: Result<
    Vec<CoordSite>,
    String,
>)
    requires
        sites_fit(utf8(block@), site_views(sites@)),
    ensures
        lists(
            r,
            utf8(block@),
            with_list(Ok::<Seq<Site>, Seq<char>>(site_views(sites@)), utf8(block@), tag@),
        ),
{
    let mut sites = sites;
    if let Some((start, end)) = coord_span(block, tag) {
        match coord_numbers(block, start, end) {
            Some(numbers) => {
                let ghost before = sites@;
                let site = CoordSite { start, end, tag, numbers };
                sites.push(site);
                assert(site_views(sites@) =~= site_views(before).push(site@));
            },
            None => {
                return Err(join3("invalid (", tag, ") coordinate"));
            },
        }
    }
    Ok(sites)
}

fn read_wire_point(block: &str, start: usize) -> (r: Result<CoordSite, String>)
    ensures
        match r {
            Ok(site) => with_points(
                Ok::<Seq<Site>, Seq<char>>(Seq::empty()),
                utf8(block@),
                seq![start as int],
                1,
            ) == Ok::<Seq<Site>, Seq<char>>(seq![site@]) && block_end(
                utf8(block@),
                site.start as int,
            ) == Some(site.end as int),
            Err(m) => with_points(
                Ok::<Seq<Site>, Seq<char>>(Seq::empty()),
                utf8(block@),
                seq![start as int],
                1,
            ) == Err::<Seq<Site>, Seq<char>>(m@),
        },
{
    let ghost none = Ok::<Seq<Site>, Seq<char>>(Seq::empty());
    proof {
        reveal_with_fuel(with_points, 2);
        assert(with_points(none, utf8(block@), seq![start as int], 0) == none);
    }
    let end = match find_balanced_block(block, start) {
        Some((_, e)) => e,
        None => {
            return Err("invalid wire point".to_owned());
        },
    };
    match parse_sexp(block_text(block, start, end)) {
        Ok(t) => match (get_numeral(&t, 1), get_numeral(&t, 2)) {
            (Some(x), Some(y)) => {
                let at = PointText { x: x.to_owned(), y: y.to_owned() };
                let numbers = CoordText { at, rotation: None };
                let site = CoordSite { start, end, tag: "xy", numbers };
                assert(Seq::<Site>::empty().push(site@) =~= seq![site@]);
                Ok(site)
            },
            (None, _) => Err("invalid wire x".to_owned()),
            (Some(_), None) => Err("invalid wire y".to_owned()),
        },
        Err(_) => Err("invalid wire point".to_owned()),
    }
}

/// A step of `with_points` depends on its own offset alone.
proof fn lemma_with_points_step(
    before: Result<Seq<Site>, Seq<char>>,
    block: Seq<u8>,
    starts: Seq<int>,
    n: int,
)
    requires
        0 < n <= starts.len(),
    ensures
        match with_points(before, block, starts, n - 1) {
            Ok(sites) => match with_points(
                Ok::<Seq<Site>, Seq<char>>(Seq::empty()),
                block,
                seq![starts[n - 1]],
                1,
            ) {
                Ok(one) => with_points(before, block, starts, n) == Ok::<Seq<Site>, Seq<char>>(
                    sites + one,
                ),
                Err(why) => with_points(before, block, starts, n) == Err::<Seq<Site>, Seq<char>>(
                    why,
                ),
            },
            Err(why) => with_points(before, block, starts, n) == Err::<Seq<Site>, Seq<char>>(why),
        },
{
    reveal_with_fuel(with_points, 2);
    let none = Ok::<Seq<Site>, Seq<char>>(Seq::empty());
    let single = seq![starts[n - 1]];
    assert(single[0] == starts[n - 1]);
    assert(with_points(none, block, single, 0) == none);
    if let Ok(sites) = with_points(before, block, starts, n - 1) {
        if let Ok(one) = with_points(none, block, single, 1) {
            assert(one.len() == 1);
            assert(Seq::<Site>::empty().push(one[0]) =~= one);
            assert(sites.push(one[0]) =~= sites + one);
        }
    }
}

/// A failure among the first offsets is the failure of all.
proof fn lemma_with_points_fails(
    before: Result<Seq<Site>, Seq<char>>,
    block: Seq<u8>,
    starts: Seq<int>,
    k: int,
    n: int,
)
    requires
        0 <= k <= n,
        with_points(before, block, starts, k) is Err,
    ensures
        with_points(before, block, starts, n) == with_points(before, block, starts, k),
    decreases n - k,
{
    if k < n {
        lemma_with_points_fails(before, block, starts, k, n - 1);
    }
}

fn push_wire_points(block: &str, sites: Vec<CoordSite>) -> (r: Result<Vec<CoordSite>, String>)
    requires
        sites_fit(utf8(block@), site_views(sites@)),
    ensures
        lists(
            r,
            utf8(block@),
            with_points(
                Ok::<Seq<Site>, Seq<char>>(site_views(sites@)),
                utf8(block@),
                block_starts(utf8(block@), utf8("xy"@)),
                block_starts(utf8(block@), utf8("xy"@)).len() as int,
            ),
        ),
{
    let ghost b = utf8(block@);
    let ghost all = block_starts(b, utf8("xy"@));
    let ghost first = Ok::<Seq<Site>, Seq<char>>(site_views(sites@));
    let ghost given = sites@;
    let mut out = sites;
    let starts = find_block_starts(block, "xy");
    let mut i: usize = 0;
    while i < starts.len()
        invariant
            i <= starts@.len(),
            given == sites@,
            first == Ok::<Seq<Site>, Seq<char>>(site_views(given)),
            b == utf8(block@),
            all == block_starts(b, utf8("xy"@)),
            offsets(starts@) == all,
            with_points(first, b, all, i as int) == Ok::<Seq<Site>, Seq<char>>(site_views(out@)),
            sites_fit(b, site_views(out@)),
        decreases starts@.len() - i,
    {
        assert(all[i as int] == starts@[i as int] as int);
        proof {
            lemma_with_points_step(first, b, all, i + 1);
        }
        match read_wire_point(block, starts[i]) {
            Ok(site) => {
                let ghost before = out@;
                out.push(site);
                assert(site_views(out@) =~= site_views(before) + seq![site@]);
            },
            Err(why) => {
                proof {
                    lemma_with_points_fails(first, b, all, i + 1, all.len() as int);
                }
                return Err(why);
            },
        }
        i += 1;
    }
    Ok(out)
}

/// A block of a block is a block of the whole.
pub proof fn lemma_block_within(s: Seq<u8>, a: int, e: int, i: int)
    requires
        0 <= a <= e <= s.len(),
        block_end(s.subrange(a, e), i) is Some,
    ensures
        block_end(s, a + i) == Some(a + (block_end(s.subrange(a, e), i)->0)),
{
    let part = s.subrange(a, e);
    let end = block_end(part, i)->0;
    crate::scan::lemma_block_end(part, i);
    crate::scan::lemma_close_within(s, a, e, i, i + 1);
}

/// A failure among the first offsets is the failure of all.
proof fn lemma_with_properties_fails(
    before: Result<Seq<Site>, Seq<char>>,
    block: Seq<u8>,
    starts: Seq<int>,
    k: int,
    n: int,
)
    requires
        0 <= k <= n,
        with_properties(before, block, starts, k) is Err,
    ensures
        with_properties(before, block, starts, n) == with_properties(before, block, starts, k),
    decreases n - k,
{
    if k < n {
        lemma_with_properties_fails(before, block, starts, k, n - 1);
    }
}

fn push_property_anchors(block: &str, sites: Vec<CoordSite>) -> (r: Result<
    Vec<CoordSite>,
    String,
>)
    requires
        sites_fit(utf8(block@), site_views(sites@)),
    ensures
        lists(
            r,
            utf8(block@),
            with_properties(
                Ok::<Seq<Site>, Seq<char>>(site_views(sites@)),
                utf8(block@),
                block_starts(utf8(block@), utf8("property"@)),
                block_starts(utf8(block@), utf8("property"@)).len() as int,
            ),
        ),
{
    let ghost b = utf8(block@);
    let ghost all = block_starts(b, utf8("property"@));
    let ghost first = Ok::<Seq<Site>, Seq<char>>(site_views(sites@));
    let total = byte_len(block);
    let ghost given = sites@;
    let mut out = sites;
    let starts = find_block_starts(block, "property");
    let mut i: usize = 0;
    while i < starts.len()
        invariant
            i <= starts@.len(),
            given == sites@,
            first == Ok::<Seq<Site>, Seq<char>>(site_views(given)),
            b == utf8(block@),
            total == b.len(),
            all == block_starts(b, utf8("property"@)),
            offsets(starts@) == all,
            with_properties(first, b, all, i as int) == Ok::<Seq<Site>, Seq<char>>(
                site_views(out@),
            ),
            sites_fit(b, site_views(out@)),
        decreases starts@.len() - i,
    {
        assert(all[i as int] == starts@[i as int] as int);
        let ghost before = out@;
        let start = starts[i];
        let end = match find_balanced_block(block, start) {
            Some((_, e)) => e,
            None => {
                proof {
                    lemma_with_properties_fails(first, b, all, i + 1, all.len() as int);
                }
                return Err("invalid symbol property".to_owned());
            },
        };
        proof {
            crate::scan::lemma_block_end(b, start as int);
        }
        let property = block_text(block, start, end);
        if let Some((at, at_end)) = coord_span(property, "at") {
            proof {
                crate::scan::lemma_block_end(utf8(property@), at as int);
                lemma_block_within(b, start as int, end as int, at as int);
            }
            match coord_numbers(property, at, at_end) {
                Some(numbers) => {
                    let site = CoordSite {
                        start: start + at,
                        end: start + at_end,
                        tag: "at",
                        numbers,
                    };
                    out.push(site);
                    assert(site_views(out@) =~= site_views(before).push(site@));
                },
                None => {
                    proof {
                        lemma_with_properties_fails(first, b, all, i + 1, all.len() as int);
                    }
                    return Err("invalid property anchor".to_owned());
                },
            }
        }
        i += 1;
    }
    Ok(out)
}

/// The coordinate lists that place an item.
pub fn find_item_sites(block: &str, kind: RegionKind) -> (r: Result<Vec<CoordSite>, String>)
    ensures
        lists(r, utf8(block@), item_sites(utf8(block@), kind)),
{
    let none: Vec<CoordSite> = Vec::new();
    assert(site_views(none@) =~= Seq::<Site>::empty());
    match kind {
        RegionKind::Wire => match push_list(block, "start", none) {
            Ok(sites) => match push_list(block, "end", sites) {
                Ok(sites) => push_wire_points(block, sites),
                Err(why) => {
                    proof {
                        lemma_with_points_fails(
                            Err::<Seq<Site>, Seq<char>>(why@),
                            utf8(block@),
                            block_starts(utf8(block@), utf8("xy"@)),
                            0,
                            block_starts(utf8(block@), utf8("xy"@)).len() as int,
                        );
                    }
                    Err(why)
                },
            },
            Err(why) => {
                proof {
                    lemma_with_points_fails(
                        Err::<Seq<Site>, Seq<char>>(why@),
                        utf8(block@),
                        block_starts(utf8(block@), utf8("xy"@)),
                        0,
                        block_starts(utf8(block@), utf8("xy"@)).len() as int,
                    );
                }
                Err(why)
            },
        },
        RegionKind::Symbol | RegionKind::PowerSymbol => match push_list(block, "at", none) {
            Ok(sites) => push_property_anchors(block, sites),
            Err(why) => {
                proof {
                    lemma_with_properties_fails(
                        Err::<Seq<Site>, Seq<char>>(why@),
                        utf8(block@),
                        block_starts(utf8(block@), utf8("property"@)),
                        0,
                        block_starts(utf8(block@), utf8("property"@)).len() as int,
                    );
                }
                Err(why)
            },
        },
        RegionKind::Rectangle => match push_list(block, "start", none) {
            Ok(sites) => push_list(block, "end", sites),
            Err(why) => Err(why),
        },
        _ => push_list(block, "at", none),
    }
}

// ── Moving ───────────────────────────────────────────────────────────────────

/// What is known of the numbers of an item: the values of its points, whether
/// the segment between them passes through the region, and the new numbers
/// for each of its coordinate lists.
pub struct Reading {
    pub a: Option<(Num, Num)>,
    pub b: Option<(Num, Num)>,
    pub clipped: bool,
    pub moved: Vec<FixedCoord>,
}

/// The reading is one of the item: a value for each point, and new numbers
/// for each coordinate list.
pub open spec fn reads(reading: Reading, item: Item, block: Seq<u8>) -> bool {
    &&& reading.a is Some <==> item.a is Some
    &&& reading.b is Some <==> item.b is Some
    &&& item_sites(block, item.kind) matches Ok(sites) ==> reading.moved@.len() == sites.len()
}

/// What becomes of an item.
#[derive(Debug, Clone, Copy, PartialEq, Eq, Structural)]
pub enum Decision {
    /// It lies in the region and moves.
    Move,
    /// It crosses the boundary of the region and stays.
    Skip,
    /// It lies outside.
    Leave,
}

/// A segment meets the region.
pub open spec fn meets(area: Box2, a: (Num, Num), b: (Num, Num), clipped: bool) -> bool {
    area.holds(a) || area.holds(b) || clipped
}

/// What becomes of an item. A wire moves when both its ends lie in the
/// region, a rectangle when all of it does, anything else when its anchor
/// does; a wire or a rectangle that only reaches in stays.
pub open spec fn decision(area: Box2, kind: RegionKind, r: Reading) -> Decision {
    match (r.a, r.b) {
        (Some(a), Some(b)) => if kind is Wire {
            if area.holds(a) && area.holds(b) {
                Decision::Move
            } else if meets(area, a, b, r.clipped) {
                Decision::Skip
            } else {
                Decision::Leave
            }
        } else if kind is Rectangle {
            if area.holds((a.0.lesser(b.0), a.1.lesser(b.1))) && area.holds(
                (a.0.greater(b.0), a.1.greater(b.1)),
            ) {
                Decision::Move
            } else if meets(area, a, b, r.clipped) {
                Decision::Skip
            } else {
                Decision::Leave
            }
        } else if area.holds(a) {
            Decision::Move
        } else {
            Decision::Leave
        },
        (Some(a), None) => if !(kind is Wire) && !(kind is Rectangle) && area.holds(a) {
            Decision::Move
        } else {
            Decision::Leave
        },
        _ => Decision::Leave,
    }
}

/// What becomes of an item.
pub fn decide(area: Box2, kind: RegionKind, r: &Reading) -> (d: Decision)
    ensures
        d == decision(area, kind, *r),
{
    let a = match r.a {
        Some(a) => a,
        None => {
            return Decision::Leave;
        },
    };
    match kind {
        RegionKind::Wire => match r.b {
            Some(b) => if area.contains(a) && area.contains(b) {
                Decision::Move
            } else if area.contains(a) || area.contains(b) || r.clipped {
                Decision::Skip
            } else {
                Decision::Leave
            },
            None => Decision::Leave,
        },
        RegionKind::Rectangle => match r.b {
            Some(b) => if area.contains((a.0.min_with(b.0), a.1.min_with(b.1))) && area.contains(
                (a.0.max_with(b.0), a.1.max_with(b.1)),
            ) {
                Decision::Move
            } else if area.contains(a) || area.contains(b) || r.clipped {
                Decision::Skip
            } else {
                Decision::Leave
            },
            None => Decision::Leave,
        },
        _ => if area.contains(a) {
            Decision::Move
        } else {
            Decision::Leave
        },
    }
}

/// A coordinate list has a rotation to write: only an anchor that had one.
pub open spec fn turned(site: Site) -> bool {
    site.tag == utf8("at"@) && site.numbers.rotation is Some
}

/// The edits that give the coordinate lists of an item new numbers.
pub open spec fn site_edits(sites: Seq<Site>, moved: Seq<FixedCoord>) -> Seq<Edit> {
    Seq::new(
        sites.len(),
        |i: int|
            Edit {
                start: sites[i].start,
                end: sites[i].end,
                text: fixed_list(sites[i].tag, moved[i], turned(sites[i])),
            },
    )
}

/// An item moved, or why it cannot be.
pub open spec fn item_moved(block: Seq<u8>, kind: RegionKind, moved: Seq<FixedCoord>) -> Result<
    Seq<u8>,
    Seq<char>,
> {
    match item_sites(block, kind) {
        Ok(sites) => Ok(edited(block, site_edits(sites, moved))),
        Err(why) => Err(why),
    }
}

/// Gives the coordinate lists of an item new numbers, and changes nothing else of it.
pub fn translate_item(block: &str, kind: RegionKind, moved: &Vec<FixedCoord>) -> (r: Result<
    String,
    String,
>)
    requires
        item_sites(utf8(block@), kind) matches Ok(sites) ==> moved@.len() == sites.len(),
    ensures
        crate::properties::gives(r, item_moved(utf8(block@), kind, moved@)),
{
    let ghost b = utf8(block@);
    let found_sites = match find_item_sites(block, kind) {
        Ok(v) => v,
        Err(why) => {
            return Err(why);
        },
    };
    let ghost sites = site_views(found_sites@);
    let ghost es = site_edits(sites, moved@);
    let mut edits: Vec<SexpEdit> = Vec::new();
    let mut i: usize = 0;
    while i < found_sites.len()
        invariant
            i <= found_sites@.len(),
            b == utf8(block@),
            sites == site_views(found_sites@),
            moved@.len() == sites.len(),
            es == site_edits(sites, moved@),
            sites_fit(b, sites),
            edit_views(edits@) == es.take(i as int),
            all_fit(edit_views(edits@), b),
        decreases found_sites@.len() - i,
    {
        let ghost before = edits@;
        let site = &found_sites[i];
        assert(sites[i as int] == site@);
        let turn = same_bytes(site.tag, "at") && site.numbers.rotation.is_some();
        let text = fixed_text(site.tag, &moved[i], turn);
        proof {
            lemma_block_cut(block@, site.start as int, site.end as int);
        }
        let edit = SexpEdit::replace(site.start, site.end, text);
        edits.push(edit);
        proof {
            assert(edit_views(edits@) =~= edit_views(before).push(edit@));
            assert(es.take(i + 1) =~= es.take(i as int).push(es[i as int]));
        }
        i += 1;
    }
    assert(es.take(i as int) =~= es);
    Ok(apply_edits(block, edits))
}

/// An item that moved.
pub struct MovedItem {
    pub kind: RegionKind,
    pub uuid: String,
}

/// A region moved: the new text, the items that moved, and those that crossed
/// the boundary and stayed.
pub struct MovedRegion {
    pub content: String,
    pub moved: Vec<MovedItem>,
    pub skipped: Vec<MovedItem>,
}

/// Items by kind and uuid, as mathematical values.
pub open spec fn moved_views(v: Seq<MovedItem>) -> Seq<(RegionKind, Seq<u8>)> {
    v.map_values(|m: MovedItem| (m.kind, utf8(m.uuid@)))
}

/// A move so far: the edits to make, the items that move, and those that stay.
#[verifier::ext_equal]
pub struct Moving {
    pub edits: Seq<Edit>,
    pub moved: Seq<(RegionKind, Seq<u8>)>,
    pub skipped: Seq<(RegionKind, Seq<u8>)>,
}

/// The first `n` items dealt with, or why one of them cannot move.
pub open spec fn moving(
    s: Seq<u8>,
    area: Box2,
    all: Seq<Item>,
    readings: Seq<Reading>,
    n: int,
) -> Result<Moving, Seq<char>>
    decreases n,
{
    if n <= 0 {
        Ok(Moving { edits: Seq::empty(), moved: Seq::empty(), skipped: Seq::empty() })
    } else {
        match moving(s, area, all, readings, n - 1) {
            Ok(m) => {
                let item = all[n - 1];
                match decision(area, item.kind, readings[n - 1]) {
                    Decision::Move => match item_moved(
                        s.subrange(item.span.0, item.span.1),
                        item.kind,
                        readings[n - 1].moved@,
                    ) {
                        Ok(text) => Ok(
                            Moving {
                                edits: m.edits.push(
                                    Edit { start: item.span.0, end: item.span.1, text },
                                ),
                                moved: m.moved.push((item.kind, item.uuid)),
                                skipped: m.skipped,
                            },
                        ),
                        Err(why) => Err(why),
                    },
                    Decision::Skip => Ok(
                        Moving { skipped: m.skipped.push((item.kind, item.uuid)), ..m },
                    ),
                    Decision::Leave => Ok(m),
                }
            },
            Err(why) => Err(why),
        }
    }
}

/// A failure among the first items is the failure of all.
proof fn lemma_moving_fails(
    s: Seq<u8>,
    area: Box2,
    all: Seq<Item>,
    readings: Seq<Reading>,
    k: int,
    n: int,
)
    requires
        0 <= k <= n,
        moving(s, area, all, readings, k) is Err,
    ensures
        moving(s, area, all, readings, n) == moving(s, area, all, readings, k),
    decreases n - k,
{
    if k < n {
        lemma_moving_fails(s, area, all, readings, k, n - 1);
    }
}

/// There is a reading for every item of a sheet.
pub open spec fn all_read(s: Seq<u8>, readings: Seq<Reading>) -> bool {
    &&& readings.len() == items(s).len()
    &&& forall|i: int|
        0 <= i < readings.len() ==> reads(
            #[trigger] readings[i],
            items(s)[i],
            s.subrange(items(s)[i].span.0, items(s)[i].span.1),
        )
}

/// Moves every item of a sheet that lies in a region. Items that only reach
/// in stay, and are listed.
pub fn move_region_content(content: &str, area: Box2, readings: &Vec<Reading>) -> (r: Result<
    MovedRegion,
    String,
>)
    requires
        all_read(utf8(content@), readings@),
    ensures
        match r {
            Ok(out) => moving(
                utf8(content@),
                area,
                items(utf8(content@)),
                readings@,
                readings@.len() as int,
            ) matches Ok(m) && {
                &&& utf8(out.content@) == edited(utf8(content@), m.edits)
                &&& moved_views(out.moved@) == m.moved
                &&& moved_views(out.skipped@) == m.skipped
            },
            Err(why) => moving(
                utf8(content@),
                area,
                items(utf8(content@)),
                readings@,
                readings@.len() as int,
            ) == Err::<Moving, Seq<char>>(why@),
        },
{
    let ghost s = utf8(content@);
    let found_items = region_items(content);
    let ghost all = items(s);
    let mut edits: Vec<SexpEdit> = Vec::new();
    let mut moved: Vec<MovedItem> = Vec::new();
    let mut skipped: Vec<MovedItem> = Vec::new();
    let mut i: usize = 0;
    assert(edit_views(edits@) =~= Seq::empty());
    assert(moved_views(moved@) =~= Seq::empty());
    assert(moved_views(skipped@) =~= Seq::empty());
    while i < found_items.len()
        invariant
            i <= found_items@.len(),
            s == utf8(content@),
            all == items(s),
            item_views(found_items@) == all,
            forall|k: int|
                0 <= k < found_items@.len() ==> block_end(
                    s,
                    (#[trigger] found_items@[k]).start as int,
                ) == Some(found_items@[k].end as int),
            all_read(s, readings@),
            moving(s, area, all, readings@, i as int) == Ok::<Moving, Seq<char>>(
                Moving {
                    edits: edit_views(edits@),
                    moved: moved_views(moved@),
                    skipped: moved_views(skipped@),
                },
            ),
            all_fit(edit_views(edits@), s),
        decreases found_items@.len() - i,
    {
        let ghost old_edits = edits@;
        let ghost old_moved = moved@;
        let ghost old_skipped = skipped@;
        let item = &found_items[i];
        assert(all[i as int] == item@);
        assert(reads(
            readings@[i as int],
            all[i as int],
            s.subrange(all[i as int].span.0, all[i as int].span.1),
        ));
        match decide(area, item.kind, &readings[i]) {
            Decision::Move => {
                let block = block_text(content, item.start, item.end);
                match translate_item(block, item.kind, &readings[i].moved) {
                    Ok(text) => {
                        proof {
                            lemma_block_cut(content@, item.start as int, item.end as int);
                        }
                        let edit = SexpEdit::replace(item.start, item.end, text);
                        edits.push(edit);
                        let entry = MovedItem { kind: item.kind, uuid: item.uuid.clone() };
                        moved.push(entry);
                        assert(edit_views(edits@) =~= edit_views(old_edits).push(edit@));
                        assert(moved_views(moved@) =~= moved_views(old_moved).push(
                            (item.kind, utf8(item.uuid@)),
                        ));
                    },
                    Err(why) => {
                        proof {
                            lemma_moving_fails(
                                s,
                                area,
                                all,
                                readings@,
                                i + 1,
                                readings@.len() as int,
                            );
                        }
                        return Err(why);
                    },
                }
            },
            Decision::Skip => {
                let entry = MovedItem { kind: item.kind, uuid: item.uuid.clone() };
                skipped.push(entry);
                assert(moved_views(skipped@) =~= moved_views(old_skipped).push(
                    (item.kind, utf8(item.uuid@)),
                ));
            },
            Decision::Leave => {},
        }
        i += 1;
    }
    let content = apply_edits(content, edits);
    Ok(MovedRegion { content, moved, skipped })
}

/// How many of the first `n` items are of a kind.
pub open spec fn count_below(all: Seq<(RegionKind, Seq<u8>)>, kind: RegionKind, n: int) -> int
    decreases n,
{
    if n <= 0 {
        0
    } else if all[n - 1].0 == kind {
        count_below(all, kind, n - 1) + 1
    } else {
        count_below(all, kind, n - 1)
    }
}

impl MovedRegion {
    /// How many items of a kind moved.
    pub fn moved_count(&self, kind: RegionKind) -> (r: usize)
        ensures
            r == count_below(moved_views(self.moved@), kind, self.moved@.len() as int),
    {
        let ghost all = moved_views(self.moved@);
        let mut n: usize = 0;
        let mut i: usize = 0;
        while i < self.moved.len()
            invariant
                i <= self.moved@.len(),
                n <= i,
                all == moved_views(self.moved@),
                n == count_below(all, kind, i as int),
            decreases self.moved@.len() - i,
        {
            assert(all[i as int].0 == self.moved@[i as int].kind);
            if self.moved[i].kind == kind {
                n += 1;
            }
            i += 1;
        }
        n
    }
}

/// Why an item that crosses the boundary of a region stays.
pub fn skip_reason(kind: RegionKind) -> (r: &'static str)
    ensures
        r@ == if kind is Wire {
            "boundary_crossing_wire"@
        } else {
            "boundary_crossing_object"@
        },
{
    match kind {
        RegionKind::Wire => "boundary_crossing_wire",
        _ => "boundary_crossing_object",
    }
}

// ── What a move keeps ────────────────────────────────────────────────────────

/// Every site is a coordinate list of the block, outside strings, that can be read.
pub open spec fn sites_good(block: Seq<u8>, r: Result<Seq<Site>, Seq<char>>) -> bool {
    r matches Ok(sites) ==> forall|i: int|
        0 <= i < sites.len() ==> site_good(block, #[trigger] sites[i])
}

proof fn lemma_with_list_good(before: Result<Seq<Site>, Seq<char>>, block: Seq<u8>, tag: Seq<char>)
    requires
        sites_good(block, before),
        coord_head(utf8(tag)),
    ensures
        sites_good(block, with_list(before, block, tag)),
{
    if let (Ok(sites), Some(r)) = (before, coord_range(block, utf8(tag))) {
        if let Some(numbers) = read_coord(block.subrange(r.0, r.1)) {
            let site = Site { start: r.0, end: r.1, tag: utf8(tag), numbers };
            lemma_list_site(block, utf8(tag), site);
        }
    }
}

proof fn lemma_with_points_good(
    before: Result<Seq<Site>, Seq<char>>,
    block: Seq<u8>,
    n: int,
)
    requires
        sites_good(block, before),
        n <= block_starts(block, utf8("xy"@)).len(),
    ensures
        sites_good(block, with_points(before, block, block_starts(block, utf8("xy"@)), n)),
    decreases n,
{
    if n > 0 {
        lemma_with_points_good(before, block, n - 1);
        lemma_coord_heads();
        let starts = block_starts(block, utf8("xy"@));
        crate::scan::lemma_starts_below(block, utf8("xy"@), block.len() as int);
        let a = starts[n - 1];
        assert(crate::scan::is_block_start(block, utf8("xy"@), a));
        if let Some(end) = block_end(block, a) {
            if parsed(block.subrange(a, end)) is Some {
                lemma_block_node(block, a, end);
                lemma_block_head(block, utf8("xy"@), a);
            }
        }
    }
}

proof fn lemma_with_properties_good(
    before: Result<Seq<Site>, Seq<char>>,
    block: Seq<u8>,
    n: int,
)
    requires
        sites_good(block, before),
        n <= block_starts(block, utf8("property"@)).len(),
    ensures
        sites_good(
            block,
            with_properties(before, block, block_starts(block, utf8("property"@)), n),
        ),
    decreases n,
{
    if n > 0 {
        lemma_with_properties_good(before, block, n - 1);
        let starts = block_starts(block, utf8("property"@));
        crate::scan::lemma_starts_below(block, utf8("property"@), block.len() as int);
        let a = starts[n - 1];
        assert(crate::scan::is_block_start(block, utf8("property"@), a));
        if let Some(end) = block_end(block, a) {
            crate::scan::lemma_block_end(block, a);
            let property = block.subrange(a, end);
            if let Some(r) = coord_range(property, utf8("at"@)) {
                if let Some(numbers) = read_coord(property.subrange(r.0, r.1)) {
                    let inner = Site { start: r.0, end: r.1, tag: utf8("at"@), numbers };
                    lemma_list_site(property, utf8("at"@), inner);
                    crate::scan::lemma_block_end(property, r.0);
                    lemma_block_within(block, a, end, r.0);
                    crate::scan::lemma_unquoted(block, 0, a);
                    crate::scan::lemma_lex_within(block, a, end, 0, r.0);
                    crate::scan::lemma_lex_compose(block, 0, a, a + r.0);
                    assert(property.subrange(r.0, r.1) =~= block.subrange(a + r.0, a + r.1));
                }
            }
        }
    }
}

/// Every coordinate list of an item is one, outside strings, that can be read.
pub proof fn lemma_item_sites_good(block: Seq<u8>, kind: RegionKind)
    ensures
        sites_good(block, item_sites(block, kind)),
{
    let none: Result<Seq<Site>, Seq<char>> = Ok(Seq::empty());
    lemma_with_list_good(none, block, "at"@);
    lemma_with_list_good(none, block, "start"@);
    lemma_with_list_good(with_list(none, block, "start"@), block, "end"@);
    lemma_with_points_good(
        with_list(with_list(none, block, "start"@), block, "end"@),
        block,
        block_starts(block, utf8("xy"@)).len() as int,
    );
    lemma_with_properties_good(
        with_list(none, block, "at"@),
        block,
        block_starts(block, utf8("property"@)).len() as int,
    );
}

/// The new numbers of an item are written as bare words.
pub open spec fn all_plain(moved: Seq<FixedCoord>) -> bool {
    forall|i: int| 0 <= i < moved.len() ==> written_plainly(#[trigger] moved[i])
}

/// An item that moves is exchanged for one that reads as it did, but for its coordinates.
proof fn lemma_moved_item(s: Seq<u8>, b: (int, int), kind: RegionKind, moved: Seq<FixedCoord>)
    requires
        block_end(s, b.0) == Some(b.1),
        !crate::scan::lex(s, 0, b.0).quoted,
        parsed(s.subrange(b.0, b.1)) is Some,
        item_moved(s.subrange(b.0, b.1), kind, moved) is Ok,
        item_sites(s.subrange(b.0, b.1), kind) matches Ok(sites) ==> sites.len() == moved.len(),
        all_plain(moved),
    ensures
        exchanging(
            s,
            (Edit {
                start: b.0,
                end: b.1,
                text: item_moved(s.subrange(b.0, b.1), kind, moved)->Ok_0,
            }),
        ),
{
    let block = s.subrange(b.0, b.1);
    let sites = item_sites(block, kind)->Ok_0;
    let es = site_edits(sites, moved);
    lemma_item_sites_good(block, kind);
    assert forall|i: int| 0 <= i < es.len() implies exchanging(block, #[trigger] es[i]) by {
        assert(site_good(block, sites[i]));
        assert(written_plainly(moved[i]));
        lemma_site_exchanging(
            block,
            sites[i],
            utf8(moved[i].x@),
            utf8(moved[i].y@),
            if turned(sites[i]) {
                Some(utf8(moved[i].rotation@))
            } else {
                None
            },
        );
    }
    lemma_block_node(s, b.0, b.1);
    lemma_block_of_itself(s, b.0, b.1);
    assert(block.subrange(0, block.len() as int) =~= block);
    lemma_block_node(block, 0, block.len() as int);
    lemma_edited_block(block, es);
    let text = edited(block, es);
    crate::alike::lemma_alike_list(
        (crate::node::node_at(block, 0)->0).0,
        (crate::node::node_at(text, 0)->0).0,
    );
    lemma_list_bytes(text);
}

/// The items among blocks stand in those blocks, in order.
pub proof fn lemma_items_below(s: Seq<u8>, blocks: Seq<(int, int)>, n: int)
    requires
        n <= blocks.len(),
        forall|k: int|
            0 <= k < blocks.len() ==> block_end(s, (#[trigger] blocks[k]).0) == Some(blocks[k].1)
                && !crate::scan::lex(s, 0, blocks[k].0).quoted,
        forall|j: int, k: int|
            0 <= j < k < blocks.len() ==> (#[trigger] blocks[j]).1 <= (#[trigger] blocks[k]).0,
    ensures
        forall|k: int|
            0 <= k < items_below(s, blocks, n).len() ==> {
                let i = #[trigger] items_below(s, blocks, n)[k];
                &&& block_end(s, i.span.0) == Some(i.span.1)
                &&& !crate::scan::lex(s, 0, i.span.0).quoted
                &&& item_at(s, i.span) == Some(i)
                &&& exists|m: int| 0 <= m < n && #[trigger] blocks[m] == i.span
            },
        forall|j: int, k: int|
            0 <= j < k < items_below(s, blocks, n).len() ==> (#[trigger] items_below(
                s,
                blocks,
                n,
            )[j]).span.1 <= (#[trigger] items_below(s, blocks, n)[k]).span.0,
    decreases n,
{
    if n > 0 {
        lemma_items_below(s, blocks, n - 1);
        let before = items_below(s, blocks, n - 1);
        let now = items_below(s, blocks, n);
        assert forall|k: int| 0 <= k < now.len() implies {
            let i = #[trigger] now[k];
            &&& block_end(s, i.span.0) == Some(i.span.1)
            &&& !crate::scan::lex(s, 0, i.span.0).quoted
            &&& item_at(s, i.span) == Some(i)
            &&& exists|m: int| 0 <= m < n && #[trigger] blocks[m] == i.span
        } by {
            if k < before.len() {
                assert(now[k] == before[k]);
                let m = choose|m: int| 0 <= m < n - 1 && #[trigger] blocks[m] == before[k].span;
                assert(blocks[m] == now[k].span);
            } else {
                assert(blocks[n - 1] == now[k].span);
            }
        }
        assert forall|j: int, k: int| 0 <= j < k < now.len() implies (#[trigger] now[j]).span.1 <= (
        #[trigger] now[k]).span.0 by {
            assert(now[j] == before[j]);
            if k < before.len() {
                assert(now[k] == before[k]);
            } else {
                let m = choose|m: int| 0 <= m < n - 1 && #[trigger] blocks[m] == before[j].span;
                assert(blocks[n - 1] == now[k].span);
            }
        }
    }
}

/// The items of a sheet stand in blocks, outside strings, one behind the other.
pub proof fn lemma_items(s: Seq<u8>)
    ensures
        forall|k: int|
            0 <= k < items(s).len() ==> {
                let i = #[trigger] items(s)[k];
                &&& block_end(s, i.span.0) == Some(i.span.1)
                &&& !crate::scan::lex(s, 0, i.span.0).quoted
                &&& item_at(s, i.span) == Some(i)
            },
        forall|j: int, k: int|
            0 <= j < k < items(s).len() ==> (#[trigger] items(s)[j]).span.1 <= (#[trigger] items(
                s,
            )[k]).span.0,
{
    let blocks = direct_children(s, utf8("kicad_sch"@));
    lemma_direct_children(s, utf8("kicad_sch"@));
    crate::scan::lemma_direct_children_apart(s, utf8("kicad_sch"@));
    lemma_items_below(s, blocks, blocks.len() as int);
}

proof fn lemma_moving_exchanging(s: Seq<u8>, area: Box2, readings: Seq<Reading>, n: int)
    requires
        0 <= n <= readings.len(),
        all_read(s, readings),
        forall|i: int| 0 <= i < readings.len() ==> all_plain((#[trigger] readings[i]).moved@),
        moving(s, area, items(s), readings, n) is Ok,
    ensures
        all_exchanging(s, (moving(s, area, items(s), readings, n)->Ok_0).edits),
    decreases n,
{
    if n > 0 {
        lemma_moving_exchanging(s, area, readings, n - 1);
        lemma_items(s);
        let item = items(s)[n - 1];
        assert(all_plain(readings[n - 1].moved@));
        assert(reads(readings[n - 1], item, s.subrange(item.span.0, item.span.1)));
        if decision(area, item.kind, readings[n - 1]) is Move {
            lemma_moved_item(s, item.span, item.kind, readings[n - 1].moved@);
        }
    }
}

/// Moving a region changes nothing of a sheet but what coordinate lists hold:
/// the sheet reads as it did before, item for item, with every uuid and every
/// designator.
pub proof fn law_region_keeps_the_rest(s: Seq<u8>, area: Box2, readings: Seq<Reading>)
    requires
        parsed(s) is Some,
        all_read(s, readings),
        forall|i: int| 0 <= i < readings.len() ==> all_plain((#[trigger] readings[i]).moved@),
        moving(s, area, items(s), readings, readings.len() as int) is Ok,
    ensures
        parsed(
            edited(
                s,
                (moving(s, area, items(s), readings, readings.len() as int)->Ok_0).edits,
            ),
        ) matches Some(u) && alike(parsed(s)->0, u),
{
    lemma_moving_exchanging(s, area, readings, readings.len() as int);
    law_edits_read_alike(
        s,
        (moving(s, area, items(s), readings, readings.len() as int)->Ok_0).edits,
    );
}

/// Every edit of a move is over one of the first `n` items, and that item moves.
proof fn lemma_moving_spans(s: Seq<u8>, area: Box2, all: Seq<Item>, readings: Seq<Reading>, n: int)
    requires
        0 <= n <= all.len(),
        moving(s, area, all, readings, n) is Ok,
    ensures
        forall|k: int|
            0 <= k < (moving(s, area, all, readings, n)->Ok_0).edits.len() ==> {
                let e = #[trigger] (moving(s, area, all, readings, n)->Ok_0).edits[k];
                exists|i: int|
                    0 <= i < n && (#[trigger] all[i]).span == (e.start, e.end) && decision(
                        area,
                        all[i].kind,
                        readings[i],
                    ) is Move
            },
    decreases n,
{
    if n > 0 {
        lemma_moving_spans(s, area, all, readings, n - 1);
        let before = (moving(s, area, all, readings, n - 1)->Ok_0).edits;
        let now = (moving(s, area, all, readings, n)->Ok_0).edits;
        assert forall|k: int| 0 <= k < now.len() implies {
            let e = #[trigger] now[k];
            exists|i: int|
                0 <= i < n && (#[trigger] all[i]).span == (e.start, e.end) && decision(
                    area,
                    all[i].kind,
                    readings[i],
                ) is Move
        } by {
            if k < before.len() {
                assert(now[k] == before[k]);
                let e = before[k];
                let i = choose|i: int|
                    0 <= i < n - 1 && (#[trigger] all[i]).span == (e.start, e.end) && decision(
                        area,
                        all[i].kind,
                        readings[i],
                    ) is Move;
                assert(all[i].span == (now[k].start, now[k].end));
            } else {
                assert(all[n - 1].span == (now[k].start, now[k].end));
            }
        }
    }
}

/// An item that crosses the boundary of the region, or lies outside, stands
/// in the moved sheet byte for byte as it was.
pub proof fn law_region_leaves_the_others(
    content: Seq<char>,
    area: Box2,
    readings: Seq<Reading>,
    k: int,
)
    requires
        all_read(utf8(content), readings),
        moving(
            utf8(content),
            area,
            items(utf8(content)),
            readings,
            readings.len() as int,
        ) is Ok,
        0 <= k < readings.len(),
        !(decision(area, items(utf8(content))[k].kind, readings[k]) is Move),
    ensures
        exists|at: int|
            occurs_at(
                edited(
                    utf8(content),
                    (moving(
                        utf8(content),
                        area,
                        items(utf8(content)),
                        readings,
                        readings.len() as int,
                    )->Ok_0).edits,
                ),
                utf8(content).subrange(
                    items(utf8(content))[k].span.0,
                    items(utf8(content))[k].span.1,
                ),
                at,
            ),
{
    let s = utf8(content);
    let all = items(s);
    let es = (moving(s, area, all, readings, readings.len() as int)->Ok_0).edits;
    lemma_items(s);
    lemma_moving_spans(s, area, all, readings, readings.len() as int);
    let b = all[k].span;
    crate::scan::lemma_block_end(s, b.0);
    assert forall|m: int| 0 <= m < es.len() implies {
        &&& crate::edit::fits(#[trigger] es[m], s)
        &&& es[m].end <= b.0 || b.1 <= es[m].start
    } by {
        let e = es[m];
        let i = choose|i: int|
            0 <= i < all.len() && (#[trigger] all[i]).span == (e.start, e.end) && decision(
                area,
                all[i].kind,
                readings[i],
            ) is Move;
        lemma_block_cut(content, all[i].span.0, all[i].span.1);
        assert(i != k);
        if i < k {
            assert(all[i].span.1 <= all[k].span.0);
        } else {
            assert(all[k].span.1 <= all[i].span.0);
        }
    }
    crate::edit::law_untouched_text_stays(s, es, b.0, b.1);
}

// ── Validation ───────────────────────────────────────────────────────────────

/// The text is one list headed `kicad_sch`.
pub open spec fn is_schematic(s: Seq<u8>) -> bool {
    parsed(s) matches Some(t) && head(t) == Some(utf8("kicad_sch"@))
}

/// How the export of a candidate went.
pub enum Export {
    /// It was written, with so many bytes.
    Done(u64),
    /// It failed, for a reason.
    Failed(String),
}

/// What is known of a candidate before it may replace a schematic.
pub struct Validation {
    /// Why it cannot be read, if it cannot.
    pub structural_error: Option<String>,
    /// How its export went, if it was tried.
    pub export: Option<Export>,
}

/// What is to be done with a candidate.
#[derive(Debug, Clone, Copy, PartialEq, Eq, Structural)]
pub enum CandidateStep {
    /// It can be read, and its export is still to be tried.
    Export,
    /// It was read and exported, and replaces the schematic.
    Commit,
    /// It did not pass, and the schematic stays as it is.
    Refuse,
}

impl Validation {
    /// The candidate is read, and nothing is known of its export.
    pub fn begin(content: &str) -> (r: Validation)
        ensures
            r.structural_error is None <==> is_schematic(utf8(content@)),
            r.structural_error matches Some(m) ==> m@ == unreadable(utf8(content@)),
            r.export is None,
    {
        Validation { structural_error: structural_error(content), export: None }
    }

    /// What is to be done with the candidate next. The export is tried only
    /// of one that can be read.
    pub fn next_step(&self) -> (r: CandidateStep)
        ensures
            r == CandidateStep::Export <==> self.structural_error is None && self.export is None,
            r == CandidateStep::Commit <==> self.passed(),
    {
        match (&self.structural_error, &self.export) {
            (None, None) => CandidateStep::Export,
            (None, Some(Export::Done(_))) => CandidateStep::Commit,
            _ => CandidateStep::Refuse,
        }
    }

    /// The export was tried.
    pub fn exported(self, export: Export) -> (r: Validation)
        requires
            self.structural_error is None,
            self.export is None,
        ensures
            r.structural_error is None,
            r.export == Some(export),
    {
        Validation { structural_error: self.structural_error, export: Some(export) }
    }

    /// The candidate was read and exported.
    pub open spec fn passed(self) -> bool {
        self.structural_error is None && self.export matches Some(Export::Done(_))
    }

    /// Whether the candidate may replace the schematic.
    pub fn valid(&self) -> (r: bool)
        ensures
            r == self.passed(),
    {
        self.structural_error.is_none() && match &self.export {
            Some(Export::Done(_)) => true,
            _ => false,
        }
    }
}

/// What to say of a text that is no schematic.
pub open spec fn unreadable(s: Seq<u8>) -> Seq<char> {
    match parsed(s) {
        Some(_) => "candidate root is not kicad_sch"@,
        None => "candidate is not one S-expression"@,
    }
}

/// Why a candidate cannot be read as a schematic, if it cannot.
pub fn structural_error(content: &str) -> (r: Option<String>)
    ensures
        match r {
            Some(m) => !is_schematic(utf8(content@)) && m@ == unreadable(utf8(content@)),
            None => is_schematic(utf8(content@)),
        },
{
    match parse_sexp(content) {
        Ok(root) => if root.is_headed("kicad_sch") {
            None
        } else {
            Some("candidate root is not kicad_sch".to_owned())
        },
        Err(_) => Some("candidate is not one S-expression".to_owned()),
    }
}

/// The refusal of a candidate that did not pass. The schematic stays as it is.
pub fn refuse_candidate(evidence: &str) -> (r: ToolError)
    ensures
        r.kind matches Some(ErrorKind::HandlerError { reason }) && reason@
            == "move_region validation failed; evidence="@ + evidence@,
        r.message@
            == "move_region refused to replace the schematic; the original was preserved byte-for-byte"@,
{
    ToolError {
        kind: Some(
            ErrorKind::HandlerError {
                reason: join2("move_region validation failed; evidence=", evidence),
            },
        ),
        message: "move_region refused to replace the schematic; the original was preserved byte-for-byte".to_owned(),
    }
}

/// The report of a candidate that passed and could not be written.
pub fn refuse_commit(evidence: &str, error: &str) -> (r: ToolError)
    ensures
        r.kind matches Some(ErrorKind::HandlerError { reason }) && reason@
            == "move_region commit failed; evidence="@ + evidence@ + "; error="@ + error@,
        r.message@
            == "move_region could not commit the validated candidate; the source was not replaced"@,
{
    ToolError {
        kind: Some(
            ErrorKind::HandlerError {
                reason: crate::text::join4(
                    "move_region commit failed; evidence=",
                    evidence,
                    "; error=",
                    error,
                ),
            },
        ),
        message: "move_region could not commit the validated candidate; the source was not replaced".to_owned(),
    }
}

} // verus!
