//! Placed symbols in schematic text.

use vstd::prelude::*;
use crate::scan::{
    block_end, enclosing_below, enclosing_block, find_enclosing_block, is_block_start,
    lemma_block_end, span, spans,
};
use crate::text::{
    contains, find_hits, hits, join3, lemma_ascii_boundary, lemma_hits, lemma_utf8_add, occurs,
    occurs_at, substr, utf8,
};

verus! {

/// The beginning of the Reference property of a symbol designated `reference`.
pub open spec fn reference_property(reference: Seq<char>) -> Seq<char> {
    "(property \"Reference\" \""@ + reference + "\""@
}

/// A block is a placed symbol rather than a library definition: only a
/// placed symbol names its definition.
pub open spec fn is_placed(s: Seq<u8>, block: (int, int)) -> bool {
    occurs(s.subrange(block.0, block.1), utf8("(lib_id "@))
}

/// Some block of `blocks` begins at `start`.
pub open spec fn has_start(blocks: Seq<(int, int)>, start: int) -> bool {
    exists|k: int| 0 <= k < blocks.len() && (#[trigger] blocks[k]).0 == start
}

/// The placed symbols around the first `n` of the offsets `at`, each once, in
/// the order in which they are first met.
pub open spec fn placed_around(s: Seq<u8>, at: Seq<int>, n: int) -> Seq<(int, int)>
    decreases n,
{
    if n <= 0 {
        Seq::empty()
    } else {
        let before = placed_around(s, at, n - 1);
        match enclosing_block(s, utf8("symbol"@), at[n - 1]) {
            Some(b) => if is_placed(s, b) && !has_start(before, b.0) {
                before.push(b)
            } else {
                before
            },
            None => before,
        }
    }
}

/// The blocks of the placed symbols designated `reference`, in file order.
pub open spec fn instance_blocks(s: Seq<u8>, reference: Seq<char>) -> Seq<(int, int)> {
    let at = hits(s, utf8(reference_property(reference)), 0);
    placed_around(s, at, at.len() as int)
}

/// The block of the first placed symbol designated `reference`.
pub open spec fn instance_block(s: Seq<u8>, reference: Seq<char>) -> Option<(int, int)> {
    let all = instance_blocks(s, reference);
    if all.len() > 0 {
        Some(all[0])
    } else {
        None
    }
}

/// What an enclosing block is: a block of that head, with the byte inside.
pub proof fn lemma_enclosing(s: Seq<u8>, tag: Seq<u8>, pos: int)
    ensures
        enclosing_block(s, tag, pos) matches Some(b) ==> {
            &&& is_block_start(s, tag, b.0)
            &&& block_end(s, b.0) == Some(b.1)
            &&& b.0 <= pos < b.1
        },
{
    lemma_enclosing_below(s, tag, pos, pos + 1);
}

proof fn lemma_enclosing_below(s: Seq<u8>, tag: Seq<u8>, pos: int, n: int)
    ensures
        enclosing_below(s, tag, pos, n) matches Some(b) ==> {
            &&& is_block_start(s, tag, b.0)
            &&& block_end(s, b.0) == Some(b.1)
            &&& b.0 < n
            &&& pos < b.1
        },
    decreases n,
{
    if n > 0 {
        lemma_enclosing_below(s, tag, pos, n - 1);
    }
}

/// A block of a text can be cut out of it.
pub proof fn lemma_block_cut(content: Seq<char>, start: int, end: int)
    requires
        block_end(utf8(content), start) == Some(end),
    ensures
        0 <= start < end <= utf8(content).len(),
        vstd::utf8::is_char_boundary(utf8(content), start),
        vstd::utf8::is_char_boundary(utf8(content), end),
{
    lemma_block_end(utf8(content), start);
    lemma_ascii_boundary(content, start);
    lemma_ascii_boundary(content, end - 1);
}

/// Every block that `placed_around` lists is a placed symbol around one of
/// the offsets, and none is listed twice.
pub proof fn lemma_placed_around(s: Seq<u8>, at: Seq<int>, n: int)
    requires
        n <= at.len(),
    ensures
        forall|k: int|
            0 <= k < placed_around(s, at, n).len() ==> {
                let b = #[trigger] placed_around(s, at, n)[k];
                &&& is_block_start(s, utf8("symbol"@), b.0)
                &&& block_end(s, b.0) == Some(b.1)
                &&& is_placed(s, b)
                &&& exists|i: int| 0 <= i < n && b.0 <= #[trigger] at[i] < b.1
            },
        forall|j: int, k: int|
            0 <= j < k < placed_around(s, at, n).len() ==> (#[trigger] placed_around(s, at, n)[j]).0
                != (#[trigger] placed_around(s, at, n)[k]).0,
    decreases n,
{
    if n > 0 {
        lemma_placed_around(s, at, n - 1);
        lemma_enclosing(s, utf8("symbol"@), at[n - 1]);
        let before = placed_around(s, at, n - 1);
        let now = placed_around(s, at, n);
        assert forall|k: int| 0 <= k < now.len() implies {
            let b = #[trigger] now[k];
            &&& is_block_start(s, utf8("symbol"@), b.0)
            &&& block_end(s, b.0) == Some(b.1)
            &&& is_placed(s, b)
            &&& exists|i: int| 0 <= i < n && b.0 <= #[trigger] at[i] < b.1
        } by {
            if k < before.len() {
                assert(now[k] == before[k]);
                let i = choose|i: int| 0 <= i < n - 1 && before[k].0 <= #[trigger] at[i] < before[k].1;
                assert(now[k].0 <= at[i] < now[k].1);
            } else {
                assert(now[k].0 <= at[n - 1] < now[k].1);
            }
        }
        assert forall|j: int, k: int| 0 <= j < k < now.len() implies (#[trigger] now[j]).0 != (
        #[trigger] now[k]).0 by {
            assert(now[j] == before[j]);
            if k < before.len() {
                assert(now[k] == before[k]);
            }
        }
    }
}

/// Every placed symbol around one of the offsets is listed.
pub proof fn lemma_placed_around_complete(s: Seq<u8>, at: Seq<int>, n: int, i: int)
    requires
        0 <= i < n <= at.len(),
        enclosing_block(s, utf8("symbol"@), at[i]) matches Some(b) && is_placed(s, b),
    ensures
        has_start(placed_around(s, at, n), (enclosing_block(s, utf8("symbol"@), at[i])->0).0),
    decreases n,
{
    let before = placed_around(s, at, n - 1);
    let now = placed_around(s, at, n);
    let start = (enclosing_block(s, utf8("symbol"@), at[i])->0).0;
    if i < n - 1 {
        lemma_placed_around_complete(s, at, n - 1, i);
        let k = choose|k: int| 0 <= k < before.len() && (#[trigger] before[k]).0 == start;
        assert(now[k].0 == start);
    } else if has_start(before, start) {
        let k = choose|k: int| 0 <= k < before.len() && (#[trigger] before[k]).0 == start;
        assert(now[k].0 == start);
    } else {
        assert(now[before.len() as int].0 == start);
    }
}

/// The search text for a designator is not empty.
pub proof fn lemma_reference_property(reference: Seq<char>)
    ensures
        utf8(reference_property(reference)).len() > 0,
        utf8(reference_property(reference))[0] == 0x28,
{
    let head = "(property \"Reference\" \""@;
    reveal_strlit("(property \"Reference\" \"");
    vstd::utf8::is_ascii_chars_encode_utf8(head);
    lemma_utf8_add(head + reference, "\""@);
    lemma_utf8_add(head, reference);
    assert(utf8(head)[0] == head[0] as u8);
    assert(utf8(reference_property(reference))[0] == utf8(head)[0]);
}

/// The text of a block.
pub fn block_text<'a>(content: &'a str, start: usize, end: usize) -> (r: &'a str)
    requires
        block_end(utf8(content@), start as int) == Some(end as int),
    ensures
        utf8(r@) == utf8(content@).subrange(start as int, end as int),
{
    proof {
        lemma_block_cut(content@, start as int, end as int);
    }
    substr(content, start, end)
}

/// The blocks of every placed symbol designated `reference`, in file order.
///
/// A part with several units is placed once per unit, and each placement
/// repeats the designator. An operation on the component has to reach all of
/// them; an operation on one placement takes the first.
pub fn find_all_symbol_instance_blocks(content: &str, reference: &str) -> (r: Vec<(usize, usize)>)
    ensures
        spans(r@) == instance_blocks(utf8(content@), reference@),
{
    let search = join3("(property \"Reference\" \"", reference, "\"");
    proof {
        lemma_reference_property(reference@);
    }
    let ghost s = utf8(content@);
    let ghost pattern = utf8(search@);
    let found = find_hits(content, search.as_str());
    let ghost at = hits(s, pattern, 0);
    let mut blocks: Vec<(usize, usize)> = Vec::new();
    let mut k: usize = 0;
    assert(spans(blocks@) =~= placed_around(s, at, 0));
    while k < found.len()
        invariant
            k <= found@.len(),
            s == utf8(content@),
            found@.map_values(|i: usize| i as int) == at,
            spans(blocks@) == placed_around(s, at, k as int),
        decreases found@.len() - k,
    {
        assert(at[k as int] == found@[k as int] as int);
        let ghost before = blocks@;
        if let Some((start, end)) = find_enclosing_block(content, "symbol", found[k]) {
            proof {
                lemma_enclosing(s, utf8("symbol"@), at[k as int]);
            }
            if contains(block_text(content, start, end), "(lib_id ") {
                let mut known = false;
                let mut j: usize = 0;
                while j < blocks.len()
                    invariant
                        j <= blocks@.len(),
                        known == exists|i: int| 0 <= i < j && (#[trigger] blocks@[i]).0 == start,
                    decreases blocks@.len() - j,
                {
                    if blocks[j].0 == start {
                        known = true;
                    }
                    j += 1;
                }
                proof {
                    if known {
                        let i = choose|i: int| 0 <= i < j && (#[trigger] blocks@[i]).0 == start;
                        assert(spans(blocks@)[i].0 == start as int);
                    } else if has_start(spans(blocks@), start as int) {
                        let i = choose|i: int|
                            0 <= i < spans(blocks@).len() && (#[trigger] spans(blocks@)[i]).0
                                == start as int;
                        assert(blocks@[i].0 == start);
                    }
                }
                if !known {
                    blocks.push((start, end));
                    assert(spans(blocks@) =~= spans(before).push((start as int, end as int)));
                }
            }
        }
        k += 1;
    }
    blocks
}

/// The block of the first placed symbol designated `reference`, for an
/// operation on one placement.
pub fn find_symbol_instance_block(content: &str, reference: &str) -> (r: Option<(usize, usize)>)
    ensures
        match r {
            Some(b) => instance_block(utf8(content@), reference@) == Some(span(b)),
            None => instance_block(utf8(content@), reference@) is None,
        },
{
    let all = find_all_symbol_instance_blocks(content, reference);
    if all.len() > 0 {
        assert(spans(all@)[0] == span(all@[0]));
        Some(all[0])
    } else {
        None
    }
}

/// Every block found for a designator opens a `symbol` list and closes it,
/// names a library definition, and holds the property that carries the
/// designator; no block is found twice.
pub proof fn law_instance_blocks_sound(s: Seq<u8>, reference: Seq<char>)
    ensures
        forall|k: int|
            0 <= k < instance_blocks(s, reference).len() ==> {
                let b = #[trigger] instance_blocks(s, reference)[k];
                &&& is_block_start(s, utf8("symbol"@), b.0)
                &&& block_end(s, b.0) == Some(b.1)
                &&& is_placed(s, b)
                &&& exists|i: int|
                    b.0 <= i < b.1 && #[trigger] occurs_at(
                        s,
                        utf8(reference_property(reference)),
                        i,
                    )
            },
        forall|j: int, k: int|
            0 <= j < k < instance_blocks(s, reference).len() ==> (
            #[trigger] instance_blocks(s, reference)[j]).0 != (#[trigger] instance_blocks(
                s,
                reference,
            )[k]).0,
{
    let p = utf8(reference_property(reference));
    let at = hits(s, p, 0);
    let all = instance_blocks(s, reference);
    lemma_hits(s, p, 0);
    lemma_placed_around(s, at, at.len() as int);
    assert forall|k: int| 0 <= k < all.len() implies {
        let b = #[trigger] all[k];
        &&& is_block_start(s, utf8("symbol"@), b.0)
        &&& block_end(s, b.0) == Some(b.1)
        &&& is_placed(s, b)
        &&& exists|i: int| b.0 <= i < b.1 && #[trigger] occurs_at(s, p, i)
    } by {
        let b = all[k];
        let i = choose|i: int| 0 <= i < at.len() && b.0 <= #[trigger] at[i] < b.1;
        assert(occurs_at(s, p, at[i]));
    }
}

/// Every placed symbol around a found Reference property is found.
pub proof fn law_instance_blocks_complete(s: Seq<u8>, reference: Seq<char>, i: int)
    requires
        0 <= i < hits(s, utf8(reference_property(reference)), 0).len(),
        enclosing_block(
            s,
            utf8("symbol"@),
            hits(s, utf8(reference_property(reference)), 0)[i],
        ) matches Some(b) && is_placed(s, b),
    ensures
        has_start(
            instance_blocks(s, reference),
            (enclosing_block(
                s,
                utf8("symbol"@),
                hits(s, utf8(reference_property(reference)), 0)[i],
            )->0).0,
        ),
{
    let at = hits(s, utf8(reference_property(reference)), 0);
    lemma_placed_around_complete(s, at, at.len() as int, i);
}

/// None of the blocks begins inside another.
pub open spec fn unnested(blocks: Seq<(int, int)>) -> bool {
    forall|i: int, j: int|
        0 <= i < blocks.len() && 0 <= j < blocks.len() ==> !((#[trigger] blocks[i]).0 < (
        #[trigger] blocks[j]).0 < blocks[i].1)
}

/// Placed symbols that do not nest are listed one behind the other.
proof fn lemma_placed_in_order(s: Seq<u8>, at: Seq<int>, n: int)
    requires
        0 <= n <= at.len(),
        forall|i: int, j: int| 0 <= i < j < at.len() ==> #[trigger] at[i] < #[trigger] at[j],
        unnested(placed_around(s, at, n)),
    ensures
        forall|i: int, j: int|
            0 <= i < j < placed_around(s, at, n).len() ==> (#[trigger] placed_around(s, at, n)[i]).1
                <= (#[trigger] placed_around(s, at, n)[j]).0,
    decreases n,
{
    if n > 0 {
        let before = placed_around(s, at, n - 1);
        let now = placed_around(s, at, n);
        assert(unnested(before)) by {
            assert forall|i: int, j: int| 0 <= i < before.len() && 0 <= j < before.len() implies !((
            #[trigger] before[i]).0 < (#[trigger] before[j]).0 < before[i].1) by {
                assert(now[i] == before[i] && now[j] == before[j]);
            }
        }
        lemma_placed_in_order(s, at, n - 1);
        lemma_placed_around(s, at, n - 1);
        lemma_placed_around(s, at, n);
        lemma_enclosing(s, utf8("symbol"@), at[n - 1]);
        assert forall|i: int, j: int| 0 <= i < j < now.len() implies (#[trigger] now[i]).1 <= (
        #[trigger] now[j]).0 by {
            assert(now[i] == before[i]);
            if j < before.len() {
                assert(now[j] == before[j]);
            } else {
                let b = before[i];
                let m = choose|m: int| 0 <= m < n - 1 && b.0 <= #[trigger] at[m] < b.1;
                assert(at[m] < at[n - 1]);
                assert(now[j].0 <= at[n - 1] < now[j].1);
                assert(now[i].0 != now[j].0);
            }
        }
    }
}

/// The blocks found for a designator stand in file order, each behind the end
/// of the one before it, wherever placed symbols do not nest.
pub proof fn law_instance_blocks_in_order(s: Seq<u8>, reference: Seq<char>)
    requires
        unnested(instance_blocks(s, reference)),
    ensures
        forall|i: int, j: int|
            0 <= i < j < instance_blocks(s, reference).len() ==> (
            #[trigger] instance_blocks(s, reference)[i]).1 <= (#[trigger] instance_blocks(
                s,
                reference,
            )[j]).0,
{
    let p = utf8(reference_property(reference));
    let at = hits(s, p, 0);
    lemma_hits(s, p, 0);
    lemma_reference_property(reference);
    assert forall|i: int, j: int| 0 <= i < j < at.len() implies #[trigger] at[i] < #[trigger] at[j] by {
        assert(at[i] + p.len() <= at[j]);
    }
    lemma_placed_in_order(s, at, at.len() as int);
}

} // verus!
