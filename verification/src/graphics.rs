//! Native graphics of a sheet: rectangles, text and text boxes, found and
//! edited by uuid.
//!
//! A graphic is edited as the block of text it is, so that its uuid, its
//! layout and its style stay as they are.

use vstd::prelude::*;
use vstd::utf8::is_char_boundary;
use crate::alike::{
    alike, all_exchanging, coord_head, exchanging, is_word, law_alike_same_text,
    law_edits_read_alike, lemma_blanks, lemma_block_node, lemma_edited_block, lemma_list_end,
    lemma_list_site, lemma_quote_ahead, lemma_site_exchanging, lemma_window_blanks,
    lemma_window_items, lemma_window_node, lemma_word, site_good, window,
};
use crate::args::{member, number_arg, opt_f64, opt_str, text_arg, Json};
use crate::coord::{
    coord_numbers, coord_range, coord_span, fixed_list, fixed_text, opt_bytes, read_coord,
    site_views, sites_fit, Coord, CoordSite, CoordText, FixedCoord, Site,
};
use crate::edit::{all_fit, apply_edits, edit_views, edited, Edit, SexpEdit};
use crate::node::{
    closing_quote, first_headed, found, found_text, head, item, items_at, lemma_trees, node_at,
    parse_sexp, parsed, past_blanks, same_bytes, text_of, trees, word_end, Sexp, SexpNode,
};
use crate::num::{valid_number, Num};
use crate::numeral::{
    get_numeral, node_pair, node_xy, numeral, opt_point, pair, point, Point, PointText,
};
use crate::quote::{escaped, law_quoted_reads_back, quote, quoted};
use crate::scan::{
    block_end, direct_children, find_balanced_block, find_direct_child_blocks, lemma_block_end,
    lemma_direct_children, lemma_direct_children_apart, lex, span, spans,
};
use crate::symbols::{block_text, lemma_block_cut};
use crate::text::{
    join3, lemma_ascii_boundary, lemma_one_byte, lemma_utf8_add, occurs_at, splice, spliced, utf8,
};

verus! {

// ── Records ──────────────────────────────────────────────────────────────────

/// What a graphic is.
#[derive(Debug, Clone, Copy, PartialEq, Eq, Structural)]
pub enum GraphicKind {
    Rectangle,
    Text,
    TextBox,
}

impl GraphicKind {
    /// The head of such a graphic.
    pub open spec fn tag(self) -> Seq<char> {
        match self {
            GraphicKind::Rectangle => "rectangle"@,
            GraphicKind::Text => "text"@,
            GraphicKind::TextBox => "text_box"@,
        }
    }

    /// The head of such a graphic.
    pub fn name(self) -> (r: &'static str)
        ensures
            r@ == self.tag(),
    {
        match self {
            GraphicKind::Rectangle => "rectangle",
            GraphicKind::Text => "text",
            GraphicKind::TextBox => "text_box",
        }
    }
}

/// The kind of graphic that a head names.
pub open spec fn kind_headed(tag: Seq<u8>) -> Option<GraphicKind> {
    if tag == utf8("rectangle"@) {
        Some(GraphicKind::Rectangle)
    } else if tag == utf8("text"@) {
        Some(GraphicKind::Text)
    } else if tag == utf8("text_box"@) {
        Some(GraphicKind::TextBox)
    } else {
        None
    }
}

fn kind_named(tag: &str) -> (r: Option<GraphicKind>)
    ensures
        r == kind_headed(utf8(tag@)),
{
    if same_bytes(tag, "rectangle") {
        Some(GraphicKind::Rectangle)
    } else if same_bytes(tag, "text") {
        Some(GraphicKind::Text)
    } else if same_bytes(tag, "text_box") {
        Some(GraphicKind::TextBox)
    } else {
        None
    }
}

/// A graphic of a sheet: where it stands in the text, and what it holds.
pub struct GraphicRecord {
    pub start: usize,
    pub end: usize,
    pub kind: GraphicKind,
    pub uuid: String,
    /// Its anchor, where it has one. Without a rotation the anchor is not rotated.
    pub at: Option<CoordText>,
    pub start_xy: Option<PointText>,
    pub end_xy: Option<PointText>,
    pub text: Option<String>,
    pub style_tags: Vec<String>,
}

/// A graphic as a mathematical value.
#[verifier::ext_equal]
pub struct Graphic {
    pub span: (int, int),
    pub kind: GraphicKind,
    pub uuid: Seq<u8>,
    pub at: Option<Coord>,
    pub start_xy: Option<Point>,
    pub end_xy: Option<Point>,
    pub text: Option<Seq<u8>>,
    pub style_tags: Seq<Seq<u8>>,
}

/// An optional coordinate as a mathematical value.
pub open spec fn opt_coord(c: Option<CoordText>) -> Option<Coord> {
    match c {
        Some(c) => Some(c@),
        None => None,
    }
}

impl View for GraphicRecord {
    type V = Graphic;

    open spec fn view(&self) -> Graphic {
        Graphic {
            span: (self.start as int, self.end as int),
            kind: self.kind,
            uuid: utf8(self.uuid@),
            at: opt_coord(self.at),
            start_xy: opt_point(self.start_xy),
            end_xy: opt_point(self.end_xy),
            text: opt_bytes(self.text),
            style_tags: crate::components::byte_texts(self.style_tags@),
        }
    }
}

/// Graphics as mathematical values.
pub open spec fn graphic_views(v: Seq<GraphicRecord>) -> Seq<Graphic> {
    v.map_values(|g: GraphicRecord| g@)
}

/// A list that styles a graphic.
pub open spec fn is_style(tag: Seq<u8>) -> bool {
    ||| tag == utf8("stroke"@)
    ||| tag == utf8("fill"@)
    ||| tag == utf8("effects"@)
    ||| tag == utf8("justify"@)
    ||| tag == utf8("margins"@)
}

/// The heads of the style lists among the first `n` of `items`.
pub open spec fn styles_below(items: Seq<Sexp>, n: int) -> Seq<Seq<u8>>
    decreases n,
{
    if n <= 0 {
        Seq::empty()
    } else {
        match head(items[n - 1]) {
            Some(tag) => if is_style(tag) {
                styles_below(items, n - 1).push(tag)
            } else {
                styles_below(items, n - 1)
            },
            None => styles_below(items, n - 1),
        }
    }
}

/// The heads of the style lists of a graphic.
pub open spec fn styles(t: Sexp) -> Seq<Seq<u8>> {
    match t {
        Sexp::List(items) => styles_below(items, items.len() as int),
        _ => Seq::empty(),
    }
}

/// The anchor of a graphic.
pub open spec fn anchor(t: Sexp) -> Option<Coord> {
    match found(t, utf8("at"@)) {
        Some(at) => match pair(at) {
            Some(p) => Some(Coord { at: p, rotation: numeral(at, 3) }),
            None => None,
        },
        None => None,
    }
}

/// The text behind the head of a list.
pub open spec fn second_text(t: Sexp) -> Option<Seq<u8>> {
    match item(t, 1) {
        Some(n) => text_of(n),
        None => None,
    }
}

/// The graphic that an item of a sheet is. It needs a uuid, and a rectangle
/// needs both corners.
pub open spec fn graphic_of(t: Sexp, b: (int, int)) -> Option<Graphic> {
    match head(t) {
        Some(tag) => match (kind_headed(tag), found_text(t, utf8("uuid"@))) {
            (Some(kind), Some(uuid)) => {
                let start_xy = point(t, utf8("start"@));
                let end_xy = point(t, utf8("end"@));
                if kind is Rectangle && (start_xy is None || end_xy is None) {
                    None
                } else {
                    Some(
                        Graphic {
                            span: b,
                            kind,
                            uuid,
                            at: anchor(t),
                            start_xy,
                            end_xy,
                            text: if kind is Rectangle {
                                None
                            } else {
                                second_text(t)
                            },
                            style_tags: styles(t),
                        },
                    )
                }
            },
            _ => None,
        },
        None => None,
    }
}

/// The graphic that stands in a block of a sheet.
pub open spec fn graphic_at(s: Seq<u8>, b: (int, int)) -> Option<Graphic> {
    match parsed(s.subrange(b.0, b.1)) {
        Some(t) => graphic_of(t, b),
        None => None,
    }
}

/// The graphics among the first `n` of the blocks.
pub open spec fn graphics_below(s: Seq<u8>, blocks: Seq<(int, int)>, n: int) -> Seq<Graphic>
    decreases n,
{
    if n <= 0 {
        Seq::empty()
    } else {
        match graphic_at(s, blocks[n - 1]) {
            Some(g) => graphics_below(s, blocks, n - 1).push(g),
            None => graphics_below(s, blocks, n - 1),
        }
    }
}

/// The graphics of a sheet, in file order.
pub open spec fn graphics(s: Seq<u8>) -> Seq<Graphic> {
    let blocks = direct_children(s, utf8("kicad_sch"@));
    graphics_below(s, blocks, blocks.len() as int)
}

fn read_style_tags(node: &SexpNode) -> (r: Vec<String>)
    ensures
        crate::components::byte_texts(r@) == styles(node.tree()),
{
    let mut tags: Vec<String> = Vec::new();
    assert(crate::components::byte_texts(tags@) =~= Seq::empty());
    match node {
        SexpNode::List(items) => {
            let ghost all = trees(items@);
            proof {
                lemma_trees(items@);
            }
            let mut i: usize = 0;
            while i < items.len()
                invariant
                    i <= items@.len(),
                    all.len() == items@.len(),
                    forall|k: int| 0 <= k < items@.len() ==> #[trigger] all[k] == items@[k].tree(),
                    crate::components::byte_texts(tags@) == styles_below(all, i as int),
                decreases items@.len() - i,
            {
                let ghost before = tags@;
                assert(all[i as int] == items@[i as int].tree());
                if let Some(tag) = items[i].head() {
                    if same_bytes(tag, "stroke") || same_bytes(tag, "fill") || same_bytes(
                        tag,
                        "effects",
                    ) || same_bytes(tag, "justify") || same_bytes(tag, "margins") {
                        tags.push(tag.to_owned());
                        assert(crate::components::byte_texts(tags@)
                            =~= crate::components::byte_texts(before).push(utf8(tag@)));
                    }
                }
                i += 1;
            }
        },
        _ => {},
    }
    tags
}

fn read_anchor(node: &SexpNode) -> (r: Option<CoordText>)
    ensures
        opt_coord(r) == anchor(node.tree()),
{
    match node.find("at") {
        Some(at) => match node_pair(at) {
            Some(p) => {
                let rotation = match get_numeral(at, 3) {
                    Some(t) => Some(t.to_owned()),
                    None => None,
                };
                Some(CoordText { at: p, rotation })
            },
            None => None,
        },
        None => None,
    }
}

fn read_graphic(node: &SexpNode, start: usize, end: usize) -> (r: Option<GraphicRecord>)
    ensures
        match r {
            Some(g) => graphic_of(node.tree(), (start as int, end as int)) == Some(g@),
            None => graphic_of(node.tree(), (start as int, end as int)) is None,
        },
{
    let kind = match node.head() {
        Some(tag) => match kind_named(tag) {
            Some(k) => k,
            None => {
                return None;
            },
        },
        None => {
            return None;
        },
    };
    let uuid = match node.find_str("uuid") {
        Some(u) => u.to_owned(),
        None => {
            return None;
        },
    };
    let start_xy = node_xy(node, "start");
    let end_xy = node_xy(node, "end");
    let is_rectangle = match kind {
        GraphicKind::Rectangle => true,
        _ => false,
    };
    if is_rectangle && (start_xy.is_none() || end_xy.is_none()) {
        return None;
    }
    let text = if is_rectangle {
        None
    } else {
        match node.get(1) {
            Some(n) => match n.as_str() {
                Some(t) => Some(t.to_owned()),
                None => None,
            },
            None => None,
        }
    };
    Some(
        GraphicRecord {
            start,
            end,
            kind,
            uuid,
            at: read_anchor(node),
            start_xy,
            end_xy,
            text,
            style_tags: read_style_tags(node),
        },
    )
}

/// The graphics of a sheet, in file order.
pub fn records(content: &str) -> (r: Vec<GraphicRecord>)
    ensures
        graphic_views(r@) == graphics(utf8(content@)),
{
    let ghost s = utf8(content@);
    let blocks = find_direct_child_blocks(content, "kicad_sch");
    let ghost all = direct_children(s, utf8("kicad_sch"@));
    proof {
        lemma_direct_children(s, utf8("kicad_sch"@));
    }
    let mut out: Vec<GraphicRecord> = Vec::new();
    let mut i: usize = 0;
    assert(graphic_views(out@) =~= graphics_below(s, all, 0));
    while i < blocks.len()
        invariant
            i <= blocks@.len(),
            s == utf8(content@),
            spans(blocks@) == all,
            forall|k: int|
                0 <= k < all.len() ==> block_end(s, (#[trigger] all[k]).0) == Some(all[k].1),
            graphic_views(out@) == graphics_below(s, all, i as int),
        decreases blocks@.len() - i,
    {
        let ghost before = out@;
        assert(all[i as int] == span(blocks@[i as int]));
        let (start, end) = blocks[i];
        if let Ok(node) = parse_sexp(block_text(content, start, end)) {
            if let Some(g) = read_graphic(&node, start, end) {
                out.push(g);
                assert(graphic_views(out@) =~= graphic_views(before).push(g@));
            }
        }
        i += 1;
    }
    out
}

/// The first of the graphics, from index `i` on, with that uuid.
pub open spec fn first_with(all: Seq<Graphic>, uuid: Seq<u8>, i: int) -> Option<Graphic>
    decreases all.len() - i,
{
    if i >= all.len() {
        None
    } else if all[i].uuid == uuid {
        Some(all[i])
    } else {
        first_with(all, uuid, i + 1)
    }
}

/// The graphic of a sheet with that uuid.
pub open spec fn graphic_with(s: Seq<u8>, uuid: Seq<char>) -> Option<Graphic> {
    first_with(graphics(s), utf8(uuid), 0)
}

/// What to say of a uuid that no graphic has.
pub open spec fn no_graphic(uuid: Seq<char>) -> Seq<char> {
    "Schematic graphic UUID '"@ + uuid + "' not found on the current sheet"@
}

/// A graphic found in a sheet stands in a block of it.
pub proof fn lemma_graphic_with(s: Seq<u8>, uuid: Seq<char>)
    ensures
        graphic_with(s, uuid) matches Some(g) ==> {
            &&& block_end(s, g.span.0) == Some(g.span.1)
            &&& !lex(s, 0, g.span.0).quoted
            &&& g.uuid == utf8(uuid)
            &&& graphic_at(s, g.span) == Some(g)
        },
{
    let blocks = direct_children(s, utf8("kicad_sch"@));
    lemma_direct_children(s, utf8("kicad_sch"@));
    lemma_graphics_below(s, blocks, blocks.len() as int);
    lemma_first_with(graphics(s), utf8(uuid), 0);
}

proof fn lemma_first_with(all: Seq<Graphic>, uuid: Seq<u8>, i: int)
    requires
        0 <= i,
    ensures
        first_with(all, uuid, i) matches Some(g) ==> g.uuid == uuid && exists|k: int|
            i <= k < all.len() && #[trigger] all[k] == g,
    decreases all.len() - i,
{
    if i < all.len() && all[i].uuid != uuid {
        lemma_first_with(all, uuid, i + 1);
    }
}

proof fn lemma_graphics_below(s: Seq<u8>, blocks: Seq<(int, int)>, n: int)
    requires
        n <= blocks.len(),
        forall|k: int|
            0 <= k < blocks.len() ==> block_end(s, (#[trigger] blocks[k]).0) == Some(blocks[k].1)
                && !lex(s, 0, blocks[k].0).quoted,
    ensures
        forall|k: int|
            0 <= k < graphics_below(s, blocks, n).len() ==> {
                let g = #[trigger] graphics_below(s, blocks, n)[k];
                &&& block_end(s, g.span.0) == Some(g.span.1)
                &&& !lex(s, 0, g.span.0).quoted
                &&& graphic_at(s, g.span) == Some(g)
                &&& exists|m: int| 0 <= m < n && #[trigger] blocks[m] == g.span
            },
    decreases n,
{
    if n > 0 {
        lemma_graphics_below(s, blocks, n - 1);
        let before = graphics_below(s, blocks, n - 1);
        let now = graphics_below(s, blocks, n);
        assert forall|k: int| 0 <= k < now.len() implies {
            let g = #[trigger] now[k];
            &&& block_end(s, g.span.0) == Some(g.span.1)
            &&& !lex(s, 0, g.span.0).quoted
            &&& graphic_at(s, g.span) == Some(g)
            &&& exists|m: int| 0 <= m < n && #[trigger] blocks[m] == g.span
        } by {
            if k < before.len() {
                assert(now[k] == before[k]);
                let m = choose|m: int| 0 <= m < n - 1 && #[trigger] blocks[m] == before[k].span;
                assert(blocks[m] == now[k].span);
            } else {
                assert(blocks[n - 1] == now[k].span);
            }
        }
    }
}

/// The graphic of a sheet with that uuid, or the refusal that names it.
pub fn record(content: &str, uuid: &str) -> (r: Result<GraphicRecord, String>)
    ensures
        match r {
            Ok(g) => graphic_with(utf8(content@), uuid@) == Some(g@),
            Err(m) => graphic_with(utf8(content@), uuid@) is None && m@ == no_graphic(uuid@),
        },
{
    let mut all = records(content);
    let ghost gs = graphics(utf8(content@));
    let mut i: usize = 0;
    while i < all.len()
        invariant
            i <= all@.len(),
            graphic_views(all@) == gs,
            gs == graphics(utf8(content@)),
            graphic_with(utf8(content@), uuid@) == first_with(gs, utf8(uuid@), i as int),
        decreases all@.len() - i,
    {
        assert(gs[i as int] == all@[i as int]@);
        if same_bytes(all[i].uuid.as_str(), uuid) {
            return Ok(all.swap_remove(i));
        }
        i += 1;
    }
    Err(join3("Schematic graphic UUID '", uuid, "' not found on the current sheet"))
}

// ── Coordinates of a graphic ─────────────────────────────────────────────────

/// The coordinate lists of a graphic, and the first of them that cannot be read.
pub struct GraphicSites {
    pub sites: Vec<CoordSite>,
    pub invalid: Option<&'static str>,
}

/// The coordinate lists of a graphic as a mathematical value.
#[verifier::ext_equal]
pub struct Sites {
    pub sites: Seq<Site>,
    pub invalid: Option<Seq<char>>,
}

impl View for GraphicSites {
    type V = Sites;

    open spec fn view(&self) -> Sites {
        Sites {
            sites: site_views(self.sites@),
            invalid: match self.invalid {
                Some(t) => Some(t@),
                None => None,
            },
        }
    }
}

/// The lists under the first `n` of the tags, up to one that cannot be read.
/// A tag without a list is passed over.
pub open spec fn sites_under(block: Seq<u8>, tags: Seq<Seq<char>>, n: int) -> Sites
    decreases n,
{
    if n <= 0 {
        Sites { sites: Seq::empty(), invalid: None }
    } else {
        let before = sites_under(block, tags, n - 1);
        let tag = tags[n - 1];
        if before.invalid is Some {
            before
        } else {
            match coord_range(block, utf8(tag)) {
                Some(r) => match read_coord(block.subrange(r.0, r.1)) {
                    Some(numbers) => Sites {
                        sites: before.sites.push(
                            Site { start: r.0, end: r.1, tag: utf8(tag), numbers },
                        ),
                        invalid: None,
                    },
                    None => Sites { sites: before.sites, invalid: Some(tag) },
                },
                None => before,
            }
        }
    }
}

/// The tags of the lists that place a graphic: its anchor, or its corners.
pub open spec fn place_tags(block: Seq<u8>, kind: GraphicKind) -> Seq<Seq<char>> {
    if !(kind is Rectangle) && coord_range(block, utf8("at"@)) is Some {
        seq!["at"@]
    } else {
        seq!["start"@, "end"@]
    }
}

/// The lists that place a graphic.
pub open spec fn graphic_sites(block: Seq<u8>, kind: GraphicKind) -> Sites {
    let tags = place_tags(block, kind);
    sites_under(block, tags, tags.len() as int)
}

fn find_sites(block: &str, tags: &Vec<&'static str>) -> (r: GraphicSites)
    ensures
        r@ == sites_under(
            utf8(block@),
            tags@.map_values(|t: &'static str| t@),
            tags@.len() as int,
        ),
        sites_fit(utf8(block@), r@.sites),
{
    let ghost b = utf8(block@);
    let ghost all = tags@.map_values(|t: &'static str| t@);
    let mut out = GraphicSites { sites: Vec::new(), invalid: None };
    let mut i: usize = 0;
    assert(out@ =~= sites_under(b, all, 0));
    while i < tags.len()
        invariant
            i <= tags@.len(),
            b == utf8(block@),
            all == tags@.map_values(|t: &'static str| t@),
            out@ == sites_under(b, all, i as int),
            sites_fit(b, out@.sites),
        decreases tags@.len() - i,
    {
        let ghost before = out@;
        assert(all[i as int] == tags@[i as int]@);
        if out.invalid.is_none() {
            if let Some((start, end)) = coord_span(block, tags[i]) {
                match coord_numbers(block, start, end) {
                    Some(numbers) => {
                        let site = CoordSite { start, end, tag: tags[i], numbers };
                        let ghost old_sites = out.sites@;
                        out.sites.push(site);
                        assert(site_views(out.sites@) =~= site_views(old_sites).push(site@));
                    },
                    None => {
                        out.invalid = Some(tags[i]);
                    },
                }
            }
        }
        i += 1;
    }
    out
}

/// The lists that place a graphic.
pub fn find_graphic_sites(block: &str, kind: GraphicKind) -> (r: GraphicSites)
    ensures
        r@ == graphic_sites(utf8(block@), kind),
        sites_fit(utf8(block@), r@.sites),
{
    let anchored = match kind {
        GraphicKind::Rectangle => false,
        _ => coord_span(block, "at").is_some(),
    };
    let tags: Vec<&'static str> = if anchored {
        vec!["at"]
    } else {
        vec!["start", "end"]
    };
    assert(tags@.map_values(|t: &'static str| t@) =~= place_tags(utf8(block@), kind));
    find_sites(block, &tags)
}

/// A coordinate list moved: its new numbers, and the same in fixed point.
pub struct MovedCoord {
    pub x: Num,
    pub y: Num,
    pub fixed: FixedCoord,
}

/// What to say of a number that cannot be a coordinate.
pub open spec fn out_of_range(name: Seq<char>) -> Seq<char> {
    name + " must be finite and within ±1000000 mm"@
}

/// The first of the moved coordinates, from index `i` on, that cannot be one.
pub open spec fn range_failure(moved: Seq<MovedCoord>, i: int) -> Option<Seq<char>>
    decreases moved.len() - i,
{
    if i >= moved.len() {
        None
    } else if !moved[i].x.in_range() {
        Some(out_of_range("x"@))
    } else if !moved[i].y.in_range() {
        Some(out_of_range("y"@))
    } else {
        range_failure(moved, i + 1)
    }
}

/// The edit that moves one coordinate list. Only an anchor has a rotation.
pub open spec fn move_edit(site: Site, moved: MovedCoord) -> Edit {
    Edit {
        start: site.start,
        end: site.end,
        text: fixed_list(site.tag, moved.fixed, site.tag == utf8("at"@)),
    }
}

/// The edits that move all of them.
pub open spec fn move_edits(sites: Seq<Site>, moved: Seq<MovedCoord>) -> Seq<Edit> {
    Seq::new(sites.len(), |i: int| move_edit(sites[i], moved[i]))
}

/// A graphic moved, or why it cannot be.
pub open spec fn translated(block: Seq<u8>, kind: GraphicKind, moved: Seq<MovedCoord>) -> Result<
    Seq<u8>,
    Seq<char>,
> {
    let f = graphic_sites(block, kind);
    match (range_failure(moved, 0), f.invalid) {
        (Some(why), _) => Err(why),
        (None, Some(tag)) => Err("invalid ("@ + tag + ") geometry"@),
        (None, None) => Ok(edited(block, move_edits(f.sites, moved))),
    }
}

/// Moves a graphic: puts new numbers into the lists that place it, and
/// changes nothing else of it.
pub fn translate_block(block: &str, kind: GraphicKind, moved: &Vec<MovedCoord>) -> (r: Result<
    String,
    String,
>)
    requires
        moved@.len() == graphic_sites(utf8(block@), kind).sites.len(),
    ensures
        crate::properties::gives(r, translated(utf8(block@), kind, moved@)),
{
    let ghost b = utf8(block@);
    let f = find_graphic_sites(block, kind);
    let ghost sites = site_views(f.sites@);
    let mut edits: Vec<SexpEdit> = Vec::new();
    let mut i: usize = 0;
    while i < f.sites.len()
        invariant
            i <= f.sites@.len(),
            b == utf8(block@),
            sites == site_views(f.sites@),
            moved@.len() == sites.len(),
            sites_fit(b, sites),
            translated(b, kind, moved@) == match range_failure(moved@, i as int) {
                Some(why) => Err::<Seq<u8>, Seq<char>>(why),
                None => match f@.invalid {
                    Some(tag) => Err("invalid ("@ + tag + ") geometry"@),
                    None => Ok(edited(b, move_edits(sites, moved@))),
                },
            },
            edit_views(edits@) == move_edits(sites, moved@).take(i as int),
            all_fit(edit_views(edits@), b),
        decreases f.sites@.len() - i,
    {
        let ghost before = edits@;
        let site = &f.sites[i];
        assert(sites[i as int] == site@);
        if let Err(why) = valid_number(moved[i].x, "x") {
            return Err(why);
        }
        if let Err(why) = valid_number(moved[i].y, "y") {
            return Err(why);
        }
        let text = fixed_text(site.tag, &moved[i].fixed, same_bytes(site.tag, "at"));
        proof {
            lemma_block_cut(block@, site.start as int, site.end as int);
        }
        let edit = SexpEdit::replace(site.start, site.end, text);
        edits.push(edit);
        proof {
            let es = move_edits(sites, moved@);
            assert(es[i as int] == move_edit(sites[i as int], moved@[i as int]));
            assert(edit_views(edits@) =~= edit_views(before).push(edit@));
            assert(es.take(i + 1) =~= es.take(i as int).push(es[i as int]));
        }
        i += 1;
    }
    assert(move_edits(sites, moved@).take(i as int) =~= move_edits(sites, moved@));
    match f.invalid {
        Some(tag) => Err(join3("invalid (", tag, ") geometry")),
        None => Ok(apply_edits(block, edits)),
    }
}

// ── Text of a graphic ────────────────────────────────────────────────────────

/// The first string, quotes and all, among the items of a list from `i` on.
/// A string inside another list is none of them.
pub open spec fn string_from(block: Seq<u8>, i: int) -> Option<(int, int)>
    decreases block.len() - i,
{
    let k = past_blanks(block, i);
    if i < 0 || k < i || k >= block.len() || block[k] == 0x29 {
        None
    } else if block[k] == 0x22 {
        match closing_quote(block, k + 1) {
            Some(j) => Some((k, j + 1)),
            None => None,
        }
    } else if block[k] == 0x28 {
        match block_end(block, k) {
            Some(e) => if k < e <= block.len() {
                string_from(block, e)
            } else {
                None
            },
            None => None,
        }
    } else if k < word_end(block, k) <= block.len() {
        string_from(block, word_end(block, k))
    } else {
        None
    }
}

/// The text of a graphic, quotes and all: the first string among the items
/// behind the head of its block. A string inside another list, such as the
/// graphic's uuid, is none of its text.
pub open spec fn string_range(block: Seq<u8>) -> Option<(int, int)> {
    let a = past_blanks(block, 1);
    let h = word_end(block, a);
    if a < h {
        string_from(block, h)
    } else {
        None
    }
}

fn skip_blank_bytes(s: &[u8], from: usize) -> (r: usize)
    requires
        from <= s@.len(),
    ensures
        r == past_blanks(s@, from as int),
        from <= r <= s@.len(),
{
    let mut i: usize = from;
    while i < s.len() && (s[i] == 0x20 || s[i] == 0x09 || s[i] == 0x0a || s[i] == 0x0d)
        invariant
            from <= i <= s@.len(),
            past_blanks(s@, from as int) == past_blanks(s@, i as int),
        decreases s@.len() - i,
    {
        i += 1;
    }
    i
}

fn skip_word_bytes(s: &[u8], from: usize) -> (r: usize)
    requires
        from <= s@.len(),
    ensures
        r == word_end(s@, from as int),
        from <= r <= s@.len(),
{
    let mut i: usize = from;
    while i < s.len() && !(s[i] == 0x20 || s[i] == 0x09 || s[i] == 0x0a || s[i] == 0x0d || s[i]
        == 0x28 || s[i] == 0x29 || s[i] == 0x22)
        invariant
            from <= i <= s@.len(),
            word_end(s@, from as int) == word_end(s@, i as int),
        decreases s@.len() - i,
    {
        i += 1;
    }
    i
}

/// The string that opens at `start`, quotes and all.
fn string_at(block: &str, start: usize) -> (r: Option<(usize, usize)>)
    requires
        start < utf8(block@).len(),
        utf8(block@)[start as int] == 0x22,
    ensures
        match r {
            Some((a, e)) => {
                &&& a == start
                &&& closing_quote(utf8(block@), start + 1) == Some(e - 1)
                &&& a < e <= utf8(block@).len()
                &&& is_char_boundary(utf8(block@), a as int)
                &&& is_char_boundary(utf8(block@), e as int)
            },
            None => closing_quote(utf8(block@), start + 1) is None,
        },
{
    let s = block.as_bytes();
    let total = s.len();
    let mut i: usize = start + 1;
    while i < s.len()
        invariant
            start < i,
            start < s@.len(),
            s@ == utf8(block@),
            s@[start as int] == 0x22,
            closing_quote(s@, start + 1) == closing_quote(s@, i as int),
        decreases s@.len() + 1 - i,
    {
        if s[i] == 0x22 {
            proof {
                lemma_ascii_boundary(block@, start as int);
                lemma_ascii_boundary(block@, i as int);
            }
            return Some((start, i + 1));
        }
        if s[i] == 0x5c {
            if i + 1 == s.len() {
                assert(closing_quote(s@, i + 2) is None);
                return None;
            }
            i += 2;
        } else {
            i += 1;
        }
    }
    None
}

/// The text of a graphic, quotes and all.
pub fn first_string_span(block: &str) -> (r: Option<(usize, usize)>)
    ensures
        match r {
            Some((a, e)) => {
                &&& string_range(utf8(block@)) == Some((a as int, e as int))
                &&& a < e <= utf8(block@).len()
                &&& is_char_boundary(utf8(block@), a as int)
                &&& is_char_boundary(utf8(block@), e as int)
            },
            None => string_range(utf8(block@)) is None,
        },
{
    let s = block.as_bytes();
    if s.len() == 0 {
        assert(past_blanks(s@, 1) == 1);
        return None;
    }
    let head = skip_blank_bytes(s, 1);
    let mut i: usize = skip_word_bytes(s, head);
    if head == i {
        return None;
    }
    loop
        invariant
            i <= s@.len(),
            s@ == utf8(block@),
            string_range(s@) == string_from(s@, i as int),
        decreases s@.len() - i,
    {
        let k = skip_blank_bytes(s, i);
        if k == s.len() || s[k] == 0x29 {
            return None;
        }
        if s[k] == 0x22 {
            return string_at(block, k);
        }
        if s[k] == 0x28 {
            match find_balanced_block(block, k) {
                Some((_, e)) => {
                    proof {
                        lemma_block_end(s@, k as int);
                    }
                    i = e;
                },
                None => {
                    return None;
                },
            }
        } else {
            let e = skip_word_bytes(s, k);
            if e == k {
                return None;
            }
            i = e;
        }
    }
}

/// The first string among the items from index `i` on.
pub open spec fn text_index(items: Seq<Sexp>, i: int) -> Option<int>
    decreases items.len() - i,
{
    if i >= items.len() {
        None
    } else if items[i] is Str {
        Some(i)
    } else {
        text_index(items, i + 1)
    }
}

/// The items from `i` on, once the first string among them is exchanged.
proof fn lemma_string_item(
    block: Seq<u8>,
    i: int,
    before: Seq<Sexp>,
    q: Seq<u8>,
    text: Sexp,
)
    requires
        0 <= i,
        string_from(block, i) is Some,
        items_at(block, i, before) is Some,
        ({
            let r = string_from(block, i)->0;
            let t = spliced(block, r.0, r.1, q);
            &&& q.len() > 0
            &&& q[0] == 0x22
            &&& node_at(t, r.0) == Some((text, r.0 + q.len()))
        }),
    ensures
        ({
            let r = string_from(block, i)->0;
            let t = spliced(block, r.0, r.1, q);
            let (items, end) = items_at(block, i, before)->0;
            &&& i <= r.0 < r.1 <= end <= block.len()
            &&& before.len() <= items.len()
            &&& text_index(items, before.len() as int) matches Some(k) && before.len() <= k
                < items.len() && items_at(t, i, before) == Some(
                (items.update(k, text), end + q.len() - (r.1 - r.0)),
            )
        }),
    decreases block.len() - i,
{
    let (a, e) = string_from(block, i)->0;
    let t = spliced(block, a, e, q);
    let (items, end) = items_at(block, i, before)->0;
    let k = past_blanks(block, i);
    let n = before.len() as int;
    lemma_blanks(block, i);
    let (node, j) = node_at(block, k)->0;
    lemma_items_kept(block, j, before.push(node));
    if block[k] == 0x22 {
        lemma_quote_ahead(block, k + 1);
    } else {
        if block[k] == 0x28 {
            lemma_list_end(block, k);
        }
        lemma_string_later(block, i, k);
    }
    assert(a < block.len() && block[a] == 0x22 && k <= a < e <= block.len()) by {
        lemma_string_bounds(block, i);
    }
    assert forall|m: int| 0 <= m <= a implies block[m] == #[trigger] t[m] by {
        if m == a {
            assert(t[a] == q[0]);
        }
    }
    assert forall|m: int| 0 <= m < a + 1 - i implies block[i + m] == #[trigger] t[i + m] by {}
    assert(window(block, i, t, i, a + 1 - i));
    lemma_window_blanks(block, i, t, i, a + 1 - i);
    assert(past_blanks(t, i) == k);
    if block[k] == 0x22 {
        let f = a + q.len() as int;
        let w = block.len() - e;
        assert forall|m: int| 0 <= m < w implies block[e + m] == #[trigger] t[f + m] by {}
        assert(window(block, e, t, f, w));
        lemma_window_items(block, e, before.push(node), t, f, before.push(text), w);
        assert(items_at(t, i, before) == items_at(t, f, before.push(text)));
        assert(items.take(n + 1)[n] == items[n]);
        assert(items[n] == node);
        assert(forall|m: int| 0 <= m < n ==> items.take(n + 1)[m] == #[trigger] items[m]);
        assert(before.push(text) + items.skip(n + 1) =~= items.update(n, text));
    } else {
        assert forall|m: int| 0 <= m < a + 1 - k implies block[k + m] == #[trigger] t[k + m] by {}
        assert(window(block, k, t, k, a + 1 - k));
        lemma_window_node(block, k, t, k, a + 1 - k);
        assert(node_at(t, k) == Some((node, j)));
        assert(string_from(block, i) == string_from(block, j));
        lemma_string_item(block, j, before.push(node), q, text);
        assert(items.take(n + 1)[n] == items[n]);
        assert(items[n] == node);
        assert(items_at(t, i, before) == items_at(t, j, before.push(node)));
    }
}

/// A string that is found stands where it is found, and is one.
proof fn lemma_string_bounds(block: Seq<u8>, i: int)
    ensures
        string_from(block, i) matches Some((a, e)) ==> {
            &&& past_blanks(block, i) <= a < e <= block.len()
            &&& block[a] == 0x22
        },
    decreases block.len() - i,
{
    if let Some((a, e)) = string_from(block, i) {
        let k = past_blanks(block, i);
        lemma_blanks(block, i);
        if block[k] == 0x22 {
            lemma_quote_ahead(block, k + 1);
        } else if block[k] == 0x28 {
            let next = block_end(block, k)->0;
            lemma_block_end(block, k);
            lemma_string_bounds(block, next);
            lemma_blanks(block, next);
        } else {
            let next = word_end(block, k);
            lemma_word(block, k);
            lemma_string_bounds(block, next);
            lemma_blanks(block, next);
        }
    }
}

/// A string behind an item is found behind the item.
proof fn lemma_string_later(block: Seq<u8>, i: int, k: int)
    requires
        k == past_blanks(block, i),
        string_from(block, i) is Some,
        node_at(block, k) is Some,
        block[k] != 0x22,
        block[k] == 0x28 ==> block_end(block, k) == Some((node_at(block, k)->0).1),
    ensures
        string_from(block, i) == string_from(block, (node_at(block, k)->0).1),
        k < (node_at(block, k)->0).1 <= (string_from(block, i)->0).0,
{
    let j = (node_at(block, k)->0).1;
    lemma_string_bounds(block, j);
    lemma_blanks(block, j);
    lemma_blanks(block, i);
}

/// The items that were read before stay in front.
proof fn lemma_items_kept(s: Seq<u8>, i: int, before: Seq<Sexp>)
    requires
        0 <= i,
    ensures
        items_at(s, i, before) matches Some((items, end)) ==> {
            &&& before.len() <= items.len()
            &&& items.take(before.len() as int) == before
            &&& i < end <= s.len()
        },
    decreases s.len() - i,
{
    if let Some((items, end)) = items_at(s, i, before) {
        let k = past_blanks(s, i);
        lemma_blanks(s, i);
        if s[k] == 0x29 {
            assert(items.take(before.len() as int) =~= before);
        } else {
            let (n, j) = node_at(s, k)->0;
            lemma_items_kept(s, j, before.push(n));
            assert(items.take(before.len() as int) =~= items.take(before.len() as int + 1).drop_last());
            assert(before.push(n).drop_last() =~= before);
        }
    }
}

/// Setting the text of a graphic sets that, and nothing else: every other
/// item of its block reads as it did, its uuid among them.
pub proof fn law_text_edit_keeps_the_rest(block: Seq<u8>, items: Seq<Sexp>, text: Seq<char>)
    requires
        node_at(block, 0) == Some((Sexp::List(items), block.len() as int)),
        string_range(block) is Some,
    ensures
        ({
            let r = string_range(block)->0;
            let t = spliced(block, r.0, r.1, utf8(quoted(text, true)));
            text_index(items, 1) matches Some(k) && {
                let now = items.update(k, Sexp::Str(utf8(text)));
                &&& 1 <= k < items.len()
                &&& items[k] is Str
                &&& node_at(t, 0) == Some((Sexp::List(now), t.len() as int))
                &&& found_text(Sexp::List(now), utf8("uuid"@)) == found_text(
                    Sexp::List(items),
                    utf8("uuid"@),
                )
            }
        }),
{
    let none = Seq::<Sexp>::empty();
    let a = past_blanks(block, 1);
    let h = word_end(block, a);
    let (i, j) = string_range(block)->0;
    let q = utf8(quoted(text, true));
    let t = spliced(block, i, j, q);
    let new_str = Sexp::Str(utf8(text));
    let atom = Sexp::Atom(block.subrange(a, h));
    lemma_blanks(block, 1);
    lemma_word(block, a);
    lemma_string_bounds(block, h);
    lemma_blanks(block, h);
    assert(node_at(block, a) == Some((atom, h)));
    assert(items_at(block, 1, none) == items_at(block, h, none.push(atom)));
    law_quoted_reads_back(block.subrange(0, i), text, true, block.subrange(j, block.len() as int));
    assert(t =~= block.subrange(0, i) + q + block.subrange(j, block.len() as int));
    assert(q.len() > 0 && q[0] == 0x22) by {
        reveal_strlit("\"");
        lemma_one_byte("\""@);
        lemma_utf8_add("\""@, escaped(text, true));
        lemma_utf8_add("\""@ + escaped(text, true), "\""@);
    }
    lemma_string_item(block, h, none.push(atom), q, new_str);
    assert forall|m: int| 0 <= m <= i implies block[m] == #[trigger] t[m] by {
        if m == i {
            assert(t[i] == q[0]);
        }
    }
    assert forall|m: int| 0 <= m < i implies block[1 + m] == #[trigger] t[1 + m] by {}
    assert(window(block, 1, t, 1, i));
    assert forall|m: int| 0 <= m < i + 1 - a implies block[a + m] == #[trigger] t[a + m] by {}
    assert(window(block, a, t, a, i + 1 - a));
    lemma_window_blanks(block, 1, t, 1, i);
    lemma_window_node(block, a, t, a, i + 1 - a);
    assert(items_at(t, 1, none) == items_at(t, h, none.push(atom)));
    let k = text_index(items, 1)->0;
    lemma_text_index(items, 1);
    lemma_headed_update(items, items.update(k, new_str), utf8("uuid"@), k, 0);
}

pub proof fn lemma_text_index(items: Seq<Sexp>, i: int)
    requires
        0 <= i,
    ensures
        text_index(items, i) matches Some(k) ==> i <= k < items.len() && items[k] is Str,
    decreases items.len() - i,
{
    if i < items.len() {
        lemma_text_index(items, i + 1);
    }
}

/// A string in the place of another hides no list.
proof fn lemma_headed_update(a: Seq<Sexp>, b: Seq<Sexp>, tag: Seq<u8>, at: int, i: int)
    requires
        0 <= i,
        a.len() == b.len(),
        0 <= at < a.len(),
        a[at] is Str,
        b[at] is Str,
        forall|k: int| 0 <= k < a.len() && k != at ==> a[k] == #[trigger] b[k],
    ensures
        first_headed(a, tag, i) == first_headed(b, tag, i),
    decreases a.len() - i,
{
    if i < a.len() {
        lemma_headed_update(a, b, tag, at, i + 1);
        if i != at {
            assert(a[i] == b[i]);
        }
    }
}

// ── Editing ──────────────────────────────────────────────────────────────────

/// An edit of a graphic under way: what the graphic was, and its block as it
/// now reads.
pub struct GraphicEdit {
    pub item: GraphicRecord,
    pub block: String,
}

/// The block of a graphic with its text replaced, or why it cannot be.
pub open spec fn text_set(block: Seq<u8>, uuid: Seq<char>, text: Option<Seq<char>>) -> Result<
    Seq<u8>,
    Seq<char>,
> {
    match text {
        Some(t) => match string_range(block) {
            Some(r) => Ok(
                spliced(block, r.0, r.1, utf8(quoted(t, true))),
            ),
            None => Err("graphic '"@ + uuid + "' has no editable text"@),
        },
        None => Ok(block),
    }
}

/// Begins to edit the graphic with a uuid: finds it, and sets its text where
/// one is given.
pub fn begin_graphic_edit(content: &str, uuid: &str, text: Option<&str>) -> (r: Result<
    GraphicEdit,
    String,
>)
    ensures
        match r {
            Ok(e) => graphic_with(utf8(content@), uuid@) matches Some(g) && e.item@ == g && text_set(
                utf8(content@).subrange(g.span.0, g.span.1),
                uuid@,
                match text {
                    Some(t) => Some(t@),
                    None => None,
                },
            ) == Ok::<Seq<u8>, Seq<char>>(utf8(e.block@)),
            Err(m) => match graphic_with(utf8(content@), uuid@) {
                Some(g) => text_set(
                    utf8(content@).subrange(g.span.0, g.span.1),
                    uuid@,
                    match text {
                        Some(t) => Some(t@),
                        None => None,
                    },
                ) == Err::<Seq<u8>, Seq<char>>(m@),
                None => m@ == no_graphic(uuid@),
            },
        },
{
    let item = match record(content, uuid) {
        Ok(g) => g,
        Err(m) => {
            return Err(m);
        },
    };
    proof {
        lemma_graphic_with(utf8(content@), uuid@);
    }
    let block = block_text(content, item.start, item.end);
    match text {
        Some(t) => match first_string_span(block) {
            Some((a, e)) => {
                let quoted = quote(t);
                let block = splice(block, a, e, quoted.as_str());
                Ok(GraphicEdit { item, block })
            },
            None => Err(join3("graphic '", uuid, "' has no editable text")),
        },
        None => {
            let block = block.to_owned();
            Ok(GraphicEdit { item, block })
        },
    }
}

/// Where a graphic is asked to go, or why it cannot: each coordinate as it is
/// given, else as the anchor has it.
pub open spec fn target(
    x: Option<Num>,
    y: Option<Num>,
    anchor: Option<(Num, Num)>,
) -> Result<(Num, Num), Seq<char>> {
    let tx = match (x, anchor) {
        (Some(n), _) => Some(n),
        (None, Some(a)) => Some(a.0),
        (None, None) => None,
    };
    let ty = match (y, anchor) {
        (Some(n), _) => Some(n),
        (None, Some(a)) => Some(a.1),
        (None, None) => None,
    };
    match (tx, ty) {
        (Some(x), Some(y)) => if !x.in_range() {
            Err(out_of_range("x"@))
        } else if !y.in_range() {
            Err(out_of_range("y"@))
        } else {
            Ok((x, y))
        },
        _ => Err("graphic has no anchor position; use rectangle geometry fields"@),
    }
}

/// Where a graphic is asked to go. `anchor` gives the numbers of its anchor,
/// where it has one.
pub fn target_position(x: Option<Num>, y: Option<Num>, anchor: Option<(Num, Num)>) -> (r: Result<
    (Num, Num),
    String,
>)
    ensures
        match r {
            Ok(p) => target(x, y, anchor) == Ok::<(Num, Num), Seq<char>>(p),
            Err(m) => target(x, y, anchor) == Err::<(Num, Num), Seq<char>>(m@),
        },
{
    let tx = match (x, anchor) {
        (Some(n), _) => Some(n),
        (None, Some(a)) => Some(a.0),
        (None, None) => None,
    };
    let ty = match (y, anchor) {
        (Some(n), _) => Some(n),
        (None, Some(a)) => Some(a.1),
        (None, None) => None,
    };
    match (tx, ty) {
        (Some(px), Some(py)) => {
            if let Err(m) = valid_number(px, "x") {
                return Err(m);
            }
            if let Err(m) = valid_number(py, "y") {
                return Err(m);
            }
            Ok((px, py))
        },
        _ => Err("graphic has no anchor position; use rectangle geometry fields".to_owned()),
    }
}

/// The block of a graphic with its rotation set, or why it cannot be.
pub open spec fn rotated(block: Seq<u8>, rotation: Num, fixed: FixedCoord) -> Result<
    Seq<u8>,
    Seq<char>,
> {
    if !rotation.in_range() {
        Err(out_of_range("rotation"@))
    } else {
        match coord_range(block, utf8("at"@)) {
            Some(r) => Ok(
                spliced(block, r.0, r.1, fixed_list(utf8("at"@), fixed, true)),
            ),
            None => Err("graphic has no rotation-bearing anchor"@),
        }
    }
}

/// The numbers of the anchor in a block, where it has one that can be read.
pub fn anchor_numbers(block: &str) -> (r: Option<CoordText>)
    ensures
        match r {
            Some(c) => coord_range(utf8(block@), utf8("at"@)) matches Some(a) && read_coord(
                utf8(block@).subrange(a.0, a.1),
            ) == Some(c@),
            None => coord_range(utf8(block@), utf8("at"@)) matches Some(a) ==> read_coord(
                utf8(block@).subrange(a.0, a.1),
            ) is None,
        },
{
    match coord_span(block, "at") {
        Some((start, end)) => coord_numbers(block, start, end),
        None => None,
    }
}

/// The anchor of a block, if it has one, can be read, where the rotation can be
/// set at all.
pub open spec fn turnable(block: Seq<u8>, rotation: Num) -> bool {
    rotation.in_range() ==> (coord_range(block, utf8("at"@)) matches Some(a) ==> read_coord(
        block.subrange(a.0, a.1),
    ) is Some)
}

/// Sets the rotation of a graphic. `fixed` gives the numbers of its anchor,
/// and the rotation, as fixed-point numbers.
pub fn rotate_block(block: &str, rotation: Num, fixed: &FixedCoord) -> (r: Result<String, String>)
    requires
        turnable(utf8(block@), rotation),
    ensures
        crate::properties::gives(r, rotated(utf8(block@), rotation, *fixed)),
{
    if let Err(m) = valid_number(rotation, "rotation") {
        return Err(m);
    }
    match coord_span(block, "at") {
        Some((start, end)) => {
            proof {
                lemma_block_cut(block@, start as int, end as int);
            }
            let text = fixed_text("at", fixed, true);
            Ok(splice(block, start, end, text.as_str()))
        },
        None => Err("graphic has no rotation-bearing anchor".to_owned()),
    }
}

/// Puts the edited block of a graphic in its place.
pub fn replace_graphic(content: &str, item: &GraphicRecord, block: &str) -> (r: String)
    requires
        block_end(utf8(content@), item.start as int) == Some(item.end as int),
    ensures
        utf8(r@) == spliced(utf8(content@), item.start as int, item.end as int, utf8(block@)),
{
    proof {
        lemma_block_cut(content@, item.start as int, item.end as int);
    }
    splice(content, item.start, item.end, block)
}

/// The numbers that an edit of a graphic works with, beside the ones it is
/// given.
pub struct GraphicNumbers {
    /// The place of the anchor, where the graphic has one.
    pub anchor: Option<(Num, Num)>,
    /// The lists that place the graphic, with its new text in it, moved to
    /// where they are asked to go.
    pub moved: Vec<MovedCoord>,
    /// The anchor, moved, with the rotation that is asked for.
    pub turned: FixedCoord,
}

/// An edit asks for another place.
pub open spec fn moves(args: Json) -> bool {
    member(args, "x"@) is Some || member(args, "y"@) is Some
}

/// Whether an edit asks for another place.
pub fn asks_move(args: &Json) -> (r: bool)
    ensures
        r == moves(*args),
{
    args.get("x").is_some() || args.get("y").is_some()
}

/// The number of an argument.
pub open spec fn asked(args: Json, key: Seq<char>) -> Option<Num> {
    match number_arg(member(args, key)) {
        Some(n) => Some(n.value),
        None => None,
    }
}

impl Graphic {
    /// The point that goes where the graphic is asked to go: its first corner,
    /// else its anchor.
    pub open spec fn origin(self) -> Option<Point> {
        match (self.start_xy, self.at) {
            (Some(p), _) => Some(p),
            (None, Some(c)) => Some(c.at),
            (None, None) => None,
        }
    }
}

impl GraphicRecord {
    /// The point that goes where the graphic is asked to go.
    pub fn origin(&self) -> (r: Option<&PointText>)
        ensures
            match r {
                Some(p) => self@.origin() == Some(p@),
                None => self@.origin() is None,
            },
    {
        match (&self.start_xy, &self.at) {
            (Some(p), _) => Some(p),
            (None, Some(c)) => Some(&c.at),
            (None, None) => None,
        }
    }
}

/// The block of a graphic at its new place, where one is asked for, or why it
/// cannot go there.
pub open spec fn place_set(
    block: Seq<u8>,
    kind: GraphicKind,
    args: Json,
    numbers: GraphicNumbers,
) -> Result<Seq<u8>, Seq<char>> {
    if moves(args) {
        match target(asked(args, "x"@), asked(args, "y"@), numbers.anchor) {
            Ok(_) => translated(block, kind, numbers.moved@),
            Err(m) => Err(m),
        }
    } else {
        Ok(block)
    }
}

/// The block of a graphic with its new rotation, where one is asked for, or
/// why it cannot have it.
pub open spec fn rotation_set(block: Seq<u8>, args: Json, numbers: GraphicNumbers) -> Result<
    Seq<u8>,
    Seq<char>,
> {
    match asked(args, "rotation"@) {
        Some(r) => rotated(block, r, numbers.turned),
        None => Ok(block),
    }
}

/// A sheet with one graphic edited, or why it cannot be: the text is set
/// first, then the place, then the rotation, each where it is asked for, and
/// the first that fails is the answer.
pub open spec fn graphic_edited(
    s: Seq<u8>,
    uuid: Seq<char>,
    args: Json,
    numbers: GraphicNumbers,
) -> Result<Seq<u8>, Seq<char>> {
    match graphic_with(s, uuid) {
        Some(g) => match text_set(
            s.subrange(g.span.0, g.span.1),
            uuid,
            text_arg(member(args, "text"@)),
        ) {
            Ok(worded) => match place_set(worded, g.kind, args, numbers) {
                Ok(placed) => match rotation_set(placed, args, numbers) {
                    Ok(block) => Ok(spliced(s, g.span.0, g.span.1, block)),
                    Err(m) => Err(m),
                },
                Err(m) => Err(m),
            },
            Err(m) => Err(m),
        },
        None => Err(no_graphic(uuid)),
    }
}

/// The numbers are those that the edit needs: the anchor is there where the
/// graphic has one, every list that is moved has its new numbers, and the
/// anchor that is turned can be read.
pub open spec fn numbers_fit(
    s: Seq<u8>,
    uuid: Seq<char>,
    args: Json,
    numbers: GraphicNumbers,
) -> bool {
    graphic_with(s, uuid) matches Some(g) ==> {
        &&& numbers.anchor is Some <==> g.at is Some
        &&& text_set(
            s.subrange(g.span.0, g.span.1),
            uuid,
            text_arg(member(args, "text"@)),
        ) matches Ok(worded) ==> {
            &&& moves(args) && target(
                asked(args, "x"@),
                asked(args, "y"@),
                numbers.anchor,
            ) is Ok ==> numbers.moved@.len() == graphic_sites(worded, g.kind).sites.len()
            &&& place_set(worded, g.kind, args, numbers) matches Ok(placed) ==> (asked(
                args,
                "rotation"@,
            ) matches Some(r) ==> turnable(placed, r))
        }
    }
}

/// Edits the graphic with a uuid: its text, its place and its rotation, as far
/// as they are asked for.
pub fn edit_graphic(content: &str, uuid: &str, args: &Json, numbers: &GraphicNumbers) -> (r: Result<
    String,
    String,
>)
    requires
        numbers_fit(utf8(content@), uuid@, *args, *numbers),
    ensures
        crate::properties::gives(r, graphic_edited(utf8(content@), uuid@, *args, *numbers)),
{
    let edit = match begin_graphic_edit(content, uuid, opt_str(args, "text")) {
        Ok(edit) => edit,
        Err(m) => {
            return Err(m);
        },
    };
    proof {
        lemma_graphic_with(utf8(content@), uuid@);
    }
    let item = edit.item;
    let mut block = edit.block;
    if asks_move(args) {
        if let Err(m) = target_position(opt_f64(args, "x"), opt_f64(args, "y"), numbers.anchor) {
            return Err(m);
        }
        match translate_block(block.as_str(), item.kind, &numbers.moved) {
            Ok(placed) => {
                block = placed;
            },
            Err(m) => {
                return Err(m);
            },
        }
    }
    if let Some(rotation) = opt_f64(args, "rotation") {
        match rotate_block(block.as_str(), rotation, &numbers.turned) {
            Ok(turned) => {
                block = turned;
            },
            Err(m) => {
                return Err(m);
            },
        }
    }
    Ok(replace_graphic(content, &item, block.as_str()))
}

/// An edit that asks for nothing changes nothing.
pub proof fn law_empty_edit_changes_nothing(
    s: Seq<u8>,
    uuid: Seq<char>,
    args: Json,
    numbers: GraphicNumbers,
)
    requires
        graphic_with(s, uuid) is Some,
        text_arg(member(args, "text"@)) is None,
        !moves(args),
        asked(args, "rotation"@) is None,
    ensures
        graphic_edited(s, uuid, args, numbers) == Ok::<Seq<u8>, Seq<char>>(s),
{
    let g = graphic_with(s, uuid)->0;
    lemma_graphic_with(s, uuid);
    lemma_block_end(s, g.span.0);
    assert(spliced(s, g.span.0, g.span.1, s.subrange(g.span.0, g.span.1)) =~= s);
}

/// Deletes the graphic with a uuid, and nothing else.
pub fn delete_graphic(content: &str, uuid: &str) -> (r: Result<String, String>)
    ensures
        match r {
            Ok(out) => graphic_with(utf8(content@), uuid@) matches Some(g) && utf8(out@)
                == spliced(utf8(content@), g.span.0, g.span.1, Seq::empty()),
            Err(m) => graphic_with(utf8(content@), uuid@) is None && m@ == no_graphic(uuid@),
        },
{
    match record(content, uuid) {
        Ok(item) => {
            proof {
                lemma_graphic_with(utf8(content@), uuid@);
                reveal_strlit("");
                assert(""@ =~= Seq::empty());
            }
            Ok(replace_graphic(content, &item, ""))
        },
        Err(m) => Err(m),
    }
}

// ── What a move keeps ────────────────────────────────────────────────────────

/// The numbers of a moved coordinate are written as bare words.
pub open spec fn written_plainly(fixed: FixedCoord) -> bool {
    &&& is_word(crate::numeral::coordinate(utf8(fixed.x@)))
    &&& is_word(crate::numeral::coordinate(utf8(fixed.y@)))
    &&& is_word(crate::numeral::coordinate(utf8(fixed.rotation@)))
}

proof fn lemma_sites_under_good(block: Seq<u8>, tags: Seq<Seq<char>>, n: int)
    requires
        n <= tags.len(),
        forall|i: int| 0 <= i < tags.len() ==> coord_head(utf8(#[trigger] tags[i])),
    ensures
        forall|i: int|
            0 <= i < sites_under(block, tags, n).sites.len() ==> site_good(
                block,
                #[trigger] sites_under(block, tags, n).sites[i],
            ),
    decreases n,
{
    if n > 0 {
        lemma_sites_under_good(block, tags, n - 1);
        let before = sites_under(block, tags, n - 1);
        let now = sites_under(block, tags, n);
        assert forall|i: int| 0 <= i < now.sites.len() implies site_good(
            block,
            #[trigger] now.sites[i],
        ) by {
            if i < before.sites.len() {
                assert(now.sites[i] == before.sites[i]);
            } else {
                lemma_list_site(block, utf8(tags[n - 1]), now.sites[i]);
            }
        }
    }
}

proof fn lemma_graphic_sites_good(block: Seq<u8>, kind: GraphicKind)
    ensures
        forall|i: int|
            0 <= i < graphic_sites(block, kind).sites.len() ==> site_good(
                block,
                #[trigger] graphic_sites(block, kind).sites[i],
            ),
{
    let tags = place_tags(block, kind);
    assert forall|i: int| 0 <= i < tags.len() implies coord_head(utf8(#[trigger] tags[i])) by {}
    lemma_sites_under_good(block, tags, tags.len() as int);
}

proof fn lemma_translated_block(block: Seq<u8>, kind: GraphicKind, moved: Seq<MovedCoord>)
    requires
        crate::node::node_at(block, 0) matches Some((t, k)) && k == block.len(),
        moved.len() == graphic_sites(block, kind).sites.len(),
        forall|i: int| 0 <= i < moved.len() ==> written_plainly((#[trigger] moved[i]).fixed),
        translated(block, kind, moved) is Ok,
    ensures
        crate::node::node_at(translated(block, kind, moved)->Ok_0, 0) matches Some((u, k)) && k
            == (translated(block, kind, moved)->Ok_0).len() && alike(
            (crate::node::node_at(block, 0)->0).0,
            u,
        ),
{
    let sites = graphic_sites(block, kind).sites;
    let es = move_edits(sites, moved);
    lemma_graphic_sites_good(block, kind);
    assert forall|i: int| 0 <= i < es.len() implies exchanging(block, #[trigger] es[i]) by {
        assert(site_good(block, sites[i]));
        assert(written_plainly(moved[i].fixed));
        let turn = sites[i].tag == utf8("at"@);
        lemma_site_exchanging(
            block,
            sites[i],
            utf8(moved[i].fixed.x@),
            utf8(moved[i].fixed.y@),
            if turn {
                Some(utf8(moved[i].fixed.rotation@))
            } else {
                None
            },
        );
        assert(es[i] == move_edit(sites[i], moved[i]));
    }
    lemma_edited_block(block, es);
}

/// Moving a graphic changes nothing of a sheet but what coordinate lists
/// hold: the sheet with the moved graphic in it reads as it did before, item
/// for item, with every uuid, text and style.
pub proof fn law_move_keeps_the_rest(s: Seq<u8>, uuid: Seq<char>, moved: Seq<MovedCoord>)
    requires
        parsed(s) is Some,
        graphic_with(s, uuid) is Some,
        ({
            let g = graphic_with(s, uuid)->0;
            let block = s.subrange(g.span.0, g.span.1);
            &&& moved.len() == graphic_sites(block, g.kind).sites.len()
            &&& translated(block, g.kind, moved) is Ok
        }),
        forall|i: int| 0 <= i < moved.len() ==> written_plainly((#[trigger] moved[i]).fixed),
    ensures
        ({
            let g = graphic_with(s, uuid)->0;
            let block = translated(s.subrange(g.span.0, g.span.1), g.kind, moved)->Ok_0;
            parsed(spliced(s, g.span.0, g.span.1, block)) matches Some(u) && alike(parsed(s)->0, u)
        }),
{
    let g = graphic_with(s, uuid)->0;
    let old_block = s.subrange(g.span.0, g.span.1);
    let block = translated(old_block, g.kind, moved)->Ok_0;
    lemma_graphic_with(s, uuid);
    lemma_block_node(s, g.span.0, g.span.1);
    assert(block_end(old_block, 0) == Some(old_block.len() as int)) by {
        crate::alike::lemma_block_of_itself(s, g.span.0, g.span.1);
    }
    assert(old_block.subrange(0, old_block.len() as int) =~= old_block);
    lemma_block_node(old_block, 0, old_block.len() as int);
    lemma_translated_block(old_block, g.kind, moved);
    let e = Edit { start: g.span.0, end: g.span.1, text: block };
    crate::alike::lemma_alike_head(
        (crate::node::node_at(old_block, 0)->0).0,
        (crate::node::node_at(block, 0)->0).0,
    );
    crate::alike::lemma_list_bytes(block);
    assert(exchanging(s, e));
    assert(all_exchanging(s, seq![e]));
    law_edits_read_alike(s, seq![e]);
    crate::edit::lemma_one_edit(s, e);
}

/// Setting the rotation of a graphic changes nothing of it but its anchor:
/// its block reads as it did before, with its uuid, its text and its style.
pub proof fn law_rotation_keeps_the_rest(
    block: Seq<u8>,
    t: Sexp,
    rotation: Num,
    fixed: FixedCoord,
)
    requires
        node_at(block, 0) == Some((t, block.len() as int)),
        coord_range(block, utf8("at"@)) matches Some(a) && read_coord(
            block.subrange(a.0, a.1),
        ) is Some,
        rotated(block, rotation, fixed) is Ok,
        written_plainly(fixed),
    ensures
        ({
            let turned = rotated(block, rotation, fixed)->Ok_0;
            node_at(turned, 0) matches Some((u, k)) && k == turned.len() && alike(t, u)
        }),
{
    let a = coord_range(block, utf8("at"@))->0;
    let site = Site {
        start: a.0,
        end: a.1,
        tag: utf8("at"@),
        numbers: read_coord(block.subrange(a.0, a.1))->0,
    };
    lemma_list_site(block, utf8("at"@), site);
    lemma_site_exchanging(
        block,
        site,
        utf8(fixed.x@),
        utf8(fixed.y@),
        Some(utf8(fixed.rotation@)),
    );
    let e = Edit { start: a.0, end: a.1, text: fixed_list(utf8("at"@), fixed, true) };
    assert(exchanging(block, e));
    lemma_edited_block(block, seq![e]);
    lemma_block_end(block, a.0);
    crate::edit::lemma_one_edit(block, e);
}

/// Deleting a graphic, or putting another block in its place, leaves every
/// graphic with another uuid as it was, byte for byte.
pub proof fn law_others_stay(s: Seq<u8>, uuid: Seq<char>, block: Seq<u8>, k: int)
    requires
        graphic_with(s, uuid) is Some,
        0 <= k < graphics(s).len(),
        graphics(s)[k].uuid != utf8(uuid),
    ensures
        ({
            let g = graphic_with(s, uuid)->0;
            let other = graphics(s)[k].span;
            exists|at: int|
                occurs_at(spliced(s, g.span.0, g.span.1, block), s.subrange(other.0, other.1), at)
        }),
{
    let g = graphic_with(s, uuid)->0;
    let o = graphics(s)[k];
    let blocks = direct_children(s, utf8("kicad_sch"@));
    lemma_graphic_with(s, uuid);
    lemma_direct_children(s, utf8("kicad_sch"@));
    lemma_direct_children_apart(s, utf8("kicad_sch"@));
    lemma_graphics_below(s, blocks, blocks.len() as int);
    lemma_first_with(graphics(s), utf8(uuid), 0);
    let i = choose|i: int| 0 <= i < graphics(s).len() && #[trigger] graphics(s)[i] == g;
    let m = choose|m: int| 0 <= m < blocks.len() && #[trigger] blocks[m] == graphics(s)[i].span;
    let n = choose|n: int| 0 <= n < blocks.len() && #[trigger] blocks[n] == o.span;
    assert(m != n);
    lemma_block_end(s, g.span.0);
    lemma_block_end(s, o.span.0);
    let r = spliced(s, g.span.0, g.span.1, block);
    let p = s.subrange(o.span.0, o.span.1);
    if n < m {
        assert(blocks[n].1 <= blocks[m].0);
        assert(r.subrange(o.span.0, o.span.0 + p.len()) =~= p);
        assert(occurs_at(r, p, o.span.0));
    } else {
        assert(blocks[m].1 <= blocks[n].0);
        let at = o.span.0 - (g.span.1 - g.span.0) + block.len();
        assert(r.subrange(at, at + p.len()) =~= p);
        assert(occurs_at(r, p, at));
    }
}

/// A graphic that reads as it did, but for its coordinates, is the same
/// graphic: same kind, same uuid, same style, same text.
pub proof fn law_alike_same_graphic(t: Sexp, u: Sexp, b: (int, int), c: (int, int))
    requires
        alike(t, u),
        graphic_of(t, b) is Some,
    ensures
        head(t) == head(u),
        found_text(u, utf8("uuid"@)) == Some((graphic_of(t, b)->0).uuid),
        styles(u) == styles(t),
        second_text(u) == second_text(t),
        graphic_of(u, c) matches Some(g) ==> {
            &&& g.kind == (graphic_of(t, b)->0).kind
            &&& g.uuid == (graphic_of(t, b)->0).uuid
            &&& g.text == (graphic_of(t, b)->0).text
            &&& g.style_tags == (graphic_of(t, b)->0).style_tags
        },
{
    lemma_graphic_heads();
    law_alike_same_text(t, u, utf8("uuid"@));
    crate::alike::lemma_alike_items(t, u);
    if let (Sexp::List(a), Sexp::List(d)) = (t, u) {
        lemma_styles_alike(a, d, a.len() as int);
    }
}

proof fn lemma_styles_alike(a: Seq<Sexp>, b: Seq<Sexp>, n: int)
    requires
        n <= a.len(),
        a.len() == b.len(),
        forall|i: int| 0 <= i < a.len() ==> head(#[trigger] a[i]) == head(b[i]),
    ensures
        styles_below(a, n) == styles_below(b, n),
    decreases n,
{
    if n > 0 {
        lemma_styles_alike(a, b, n - 1);
        assert(head(a[n - 1]) == head(b[n - 1]));
    }
}

proof fn lemma_graphic_heads()
    ensures
        !coord_head(utf8("uuid"@)),
        !coord_head(utf8("rectangle"@)),
        !coord_head(utf8("text"@)),
        !coord_head(utf8("text_box"@)),
{
    reveal_strlit("at");
    reveal_strlit("start");
    reveal_strlit("end");
    reveal_strlit("xy");
    reveal_strlit("uuid");
    reveal_strlit("rectangle");
    reveal_strlit("text");
    reveal_strlit("text_box");
    vstd::utf8::is_ascii_chars_encode_utf8("at"@);
    vstd::utf8::is_ascii_chars_encode_utf8("start"@);
    vstd::utf8::is_ascii_chars_encode_utf8("end"@);
    vstd::utf8::is_ascii_chars_encode_utf8("xy"@);
    vstd::utf8::is_ascii_chars_encode_utf8("uuid"@);
    vstd::utf8::is_ascii_chars_encode_utf8("rectangle"@);
    vstd::utf8::is_ascii_chars_encode_utf8("text"@);
    vstd::utf8::is_ascii_chars_encode_utf8("text_box"@);
}

} // verus!
