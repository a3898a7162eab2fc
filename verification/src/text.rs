//! Byte-exact views of text, substring search, and splicing.
//!
//! Offsets are byte offsets, as they are in `str`. A contract therefore
//! speaks of the UTF-8 encoding of a text, written `utf8(s@)`.

use vstd::prelude::*;
use vstd::utf8::{
    encode_utf8, encode_utf8_decode_utf8, encode_utf8_valid_utf8, is_ascii_chars_encode_utf8,
    is_char_boundary, is_char_boundary_iff_not_is_continuation_byte,
    is_char_boundary_start_end_of_seq, pop_first_scalar, valid_utf8, valid_utf8_split,
};
use vstd::string::StringExecFns;

verus! {

/// The bytes of a text.
pub open spec fn utf8(s: Seq<char>) -> Seq<u8> {
    encode_utf8(s)
}

/// Encoding distributes over concatenation.
pub proof fn lemma_utf8_add(a: Seq<char>, b: Seq<char>)
    ensures
        utf8(a + b) == utf8(a) + utf8(b),
    decreases a.len(),
{
    if a.len() == 0 {
        assert(a + b =~= b);
        assert(utf8(a) + utf8(b) =~= utf8(b));
    } else {
        lemma_utf8_add(a.drop_first(), b);
        assert((a + b).drop_first() =~= a.drop_first() + b);
        assert(utf8(a + b) =~= utf8(a) + utf8(b));
    }
}

/// Two texts with the same bytes are the same text.
pub proof fn lemma_utf8_injective(a: Seq<char>, b: Seq<char>)
    requires
        utf8(a) == utf8(b),
    ensures
        a == b,
{
    encode_utf8_decode_utf8(a);
    encode_utf8_decode_utf8(b);
}

/// An ASCII byte of a text stands alone: the text can be cut on either side of it.
pub proof fn lemma_ascii_boundary(s: Seq<char>, k: int)
    requires
        0 <= k < utf8(s).len(),
        utf8(s)[k] < 0x80,
    ensures
        is_char_boundary(utf8(s), k),
        is_char_boundary(utf8(s), k + 1),
{
    let bytes = utf8(s);
    encode_utf8_valid_utf8(s);
    is_char_boundary_iff_not_is_continuation_byte(bytes, k);
    if k + 1 == bytes.len() {
        is_char_boundary_start_end_of_seq(bytes);
    } else {
        valid_utf8_split(bytes, k);
        let tail = bytes.subrange(k, bytes.len() as int);
        let rest = pop_first_scalar(tail);
        assert(rest =~= bytes.subrange(k + 1, bytes.len() as int));
        assert(valid_utf8(rest));
        assert(rest[0] == bytes[k + 1]);
        is_char_boundary_iff_not_is_continuation_byte(bytes, k + 1);
    }
}

/// Both ends of a text are places where it can be cut.
pub proof fn lemma_end_boundary(s: Seq<char>)
    ensures
        is_char_boundary(utf8(s), 0),
        is_char_boundary(utf8(s), utf8(s).len() as int),
{
    encode_utf8_valid_utf8(s);
    is_char_boundary_start_end_of_seq(utf8(s));
}

/// `p` stands in `s` at offset `i`.
pub open spec fn occurs_at(s: Seq<u8>, p: Seq<u8>, i: int) -> bool {
    &&& 0 <= i
    &&& i + p.len() <= s.len()
    &&& s.subrange(i, i + p.len()) == p
}

/// The first offset at or after `from` at which `p` stands in `s`.
pub open spec fn first_at(s: Seq<u8>, p: Seq<u8>, from: int) -> Option<int>
    decreases s.len() - from + 1,
{
    if from > s.len() {
        None
    } else if occurs_at(s, p, from) {
        Some(from)
    } else {
        first_at(s, p, from + 1)
    }
}

/// `p` stands somewhere in `s`.
pub open spec fn occurs(s: Seq<u8>, p: Seq<u8>) -> bool {
    first_at(s, p, 0) is Some
}

/// The last offset below `below` at which the byte `c` stands in `s`.
pub open spec fn last_byte_below(s: Seq<u8>, c: u8, below: int) -> Option<int>
    decreases below,
{
    if below <= 0 {
        None
    } else if s[below - 1] == c {
        Some(below - 1)
    } else {
        last_byte_below(s, c, below - 1)
    }
}

/// The characters of each text.
pub open spec fn texts(v: Seq<String>) -> Seq<Seq<char>> {
    v.map_values(|s: String| s@)
}

/// The characters of an optional text.
pub open spec fn opt_text(s: Option<String>) -> Option<Seq<char>> {
    match s {
        Some(t) => Some(t@),
        None => None,
    }
}

/// The characters that a run of bytes encodes.
pub open spec fn chars(b: Seq<u8>) -> Seq<char> {
    vstd::utf8::decode_utf8(b)
}

/// A text is what its bytes encode.
pub proof fn lemma_chars(s: Seq<char>)
    ensures
        chars(utf8(s)) == s,
{
    encode_utf8_decode_utf8(s);
}

proof fn lemma_char_least(c: char)
    ensures
        '\0' <= c,
{
}

/// A text that begins and ends in ASCII encodes its ends as single bytes.
pub proof fn lemma_edges(p: Seq<char>)
    requires
        p.len() > 0,
        p[0] <= '\u{7f}',
        p.last() <= '\u{7f}',
    ensures
        utf8(p).len() > 0,
        utf8(p)[0] == p[0] as u8,
        utf8(p).last() == p.last() as u8,
        utf8(p)[0] < 0x80,
        utf8(p).last() < 0x80,
{
    let first = seq![p[0]];
    let last = seq![p.last()];
    lemma_char_least(p[0]);
    lemma_char_least(p.last());
    vstd::utf8::is_ascii_chars_encode_utf8(first);
    vstd::utf8::is_ascii_chars_encode_utf8(last);
    assert(p =~= first + p.drop_first());
    assert(p =~= p.drop_last() + last);
    lemma_utf8_add(first, p.drop_first());
    lemma_utf8_add(p.drop_last(), last);
    assert(utf8(first)[0] == p[0] as u8);
    assert(utf8(last).last() == p.last() as u8);
}

/// An ASCII character encodes as one byte.
pub proof fn lemma_one_byte(p: Seq<char>)
    requires
        p.len() == 1,
        p[0] <= '\u{7f}',
    ensures
        utf8(p) == seq![p[0] as u8],
{
    lemma_char_least(p[0]);
    vstd::utf8::is_ascii_chars_encode_utf8(p);
    assert(utf8(p) =~= seq![p[0] as u8]);
}

/// A character's bytes: itself when it is ASCII, and none below 0x80 otherwise.
pub proof fn lemma_char_bytes(c: char)
    ensures
        utf8(seq![c]).len() > 0,
        if c <= '\u{7f}' {
            utf8(seq![c]) == seq![c as u8]
        } else {
            forall|i: int| 0 <= i < utf8(seq![c]).len() ==> #[trigger] utf8(seq![c])[i] >= 0x80
        },
{
    lemma_char_least(c);
    if c <= '\u{7f}' {
        lemma_one_byte(seq![c]);
    } else {
        let u = c as u32;
        assert(seq![c].drop_first() =~= Seq::<char>::empty());
        assert(utf8(Seq::<char>::empty()) =~= Seq::<u8>::empty());
        assert(utf8(seq![c]) =~= vstd::utf8::encode_scalar(u));
        assert forall|k: u8, x: u8| k >= 0x80 implies #[trigger] (k | x) >= 0x80 by {
            assert(k >= 0x80 ==> (k | x) >= 0x80) by (bit_vector);
        }
    }
}

/// A text without an ASCII character has no such byte.
pub proof fn lemma_byte_absent(s: Seq<char>, c: char)
    requires
        c <= '\u{7f}',
        !s.contains(c),
    ensures
        forall|i: int| 0 <= i < utf8(s).len() ==> #[trigger] utf8(s)[i] != c as u8,
    decreases s.len(),
{
    if s.len() > 0 {
        let rest = s.drop_first();
        assert(!rest.contains(c)) by {
            if rest.contains(c) {
                let k = choose|k: int| 0 <= k < rest.len() && rest[k] == c;
                assert(s[k + 1] == c);
            }
        }
        lemma_byte_absent(rest, c);
        lemma_char_least(c);
        lemma_char_least(s[0]);
        lemma_char_bytes(s[0]);
        assert(s[0] != c);
        lemma_utf8_add(seq![s[0]], rest);
        assert(s =~= seq![s[0]] + rest);
        let a = utf8(seq![s[0]]);
        assert forall|i: int| 0 <= i < utf8(s).len() implies #[trigger] utf8(s)[i] != c as u8 by {
            if i < a.len() {
                assert(utf8(s)[i] == a[i]);
            } else {
                assert(utf8(s)[i] == utf8(rest)[i - a.len()]);
            }
        }
    }
}

/// A text can be cut around an occurrence that begins and ends in ASCII.
pub proof fn lemma_occurrence_cut(s: Seq<char>, p: Seq<char>, i: int)
    requires
        p.len() > 0,
        p[0] <= '\u{7f}',
        p.last() <= '\u{7f}',
        occurs_at(utf8(s), utf8(p), i),
    ensures
        utf8(p).len() > 0,
        0 <= i < i + utf8(p).len() <= utf8(s).len(),
        is_char_boundary(utf8(s), i),
        is_char_boundary(utf8(s), i + utf8(p).len()),
{
    lemma_edges(p);
    let b = utf8(s);
    let q = utf8(p);
    assert(b.subrange(i, i + q.len())[0] == b[i]);
    assert(b.subrange(i, i + q.len())[q.len() - 1] == b[i + q.len() - 1]);
    lemma_ascii_boundary(s, i);
    lemma_ascii_boundary(s, i + q.len() - 1);
}

/// What `first_at` means: the least offset with an occurrence.
pub proof fn lemma_first_at(s: Seq<u8>, p: Seq<u8>, from: int)
    requires
        0 <= from,
    ensures
        match first_at(s, p, from) {
            Some(i) => from <= i && occurs_at(s, p, i) && forall|j: int|
                from <= j < i ==> !occurs_at(s, p, j),
            None => forall|j: int| from <= j ==> !occurs_at(s, p, j),
        },
    decreases s.len() - from + 1,
{
    if from <= s.len() && !occurs_at(s, p, from) {
        lemma_first_at(s, p, from + 1);
    }
}

/// `occurs` holds exactly when there is an occurrence.
pub proof fn lemma_occurs(s: Seq<u8>, p: Seq<u8>)
    ensures
        occurs(s, p) <==> exists|i: int| occurs_at(s, p, i),
{
    lemma_first_at(s, p, 0);
    if occurs(s, p) {
        assert(occurs_at(s, p, first_at(s, p, 0)->0));
    }
}

/// What `last_byte_below` means: the greatest such offset.
pub proof fn lemma_last_byte_below(s: Seq<u8>, c: u8, below: int)
    requires
        below <= s.len(),
    ensures
        match last_byte_below(s, c, below) {
            Some(i) => 0 <= i < below && s[i] == c && forall|j: int| i < j < below ==> s[j] != c,
            None => forall|j: int| 0 <= j < below ==> s[j] != c,
        },
    decreases below,
{
    if below > 0 && s[below - 1] != c {
        lemma_last_byte_below(s, c, below - 1);
    }
}

/// Whether `p` stands in `s` at offset `i`.
pub fn bytes_occur_at(s: &[u8], p: &[u8], i: usize) -> (r: bool)
    ensures
        r == occurs_at(s@, p@, i as int),
{
    if i > s.len() || p.len() > s.len() - i {
        return false;
    }
    let mut k: usize = 0;
    while k < p.len()
        invariant
            k <= p@.len(),
            i + p@.len() <= s.len(),
            forall|j: int| 0 <= j < k ==> s@[i + j] == p@[j],
        decreases p@.len() - k,
    {
        if s[i + k] != p[k] {
            assert(s@.subrange(i as int, i + p@.len())[k as int] != p@[k as int]);
            return false;
        }
        k += 1;
    }
    assert(s@.subrange(i as int, i + p@.len()) =~= p@);
    true
}

/// The first offset at or after `from` at which `p` stands in `s`.
pub fn bytes_find(s: &[u8], p: &[u8], from: usize) -> (r: Option<usize>)
    ensures
        match r {
            Some(i) => first_at(s@, p@, from as int) == Some(i as int),
            None => first_at(s@, p@, from as int) is None,
        },
{
    let mut i: usize = from;
    while i < s.len()
        invariant
            first_at(s@, p@, from as int) == first_at(s@, p@, i as int),
            i <= s@.len() || i == from,
        decreases s@.len() - i,
    {
        if bytes_occur_at(s, p, i) {
            return Some(i);
        }
        i += 1;
    }
    if i == s.len() && p.len() == 0 {
        assert(s@.subrange(i as int, i as int) =~= p@);
        return Some(i);
    }
    proof {
        if i == s@.len() {
            assert(!occurs_at(s@, p@, i as int));
            assert(first_at(s@, p@, i as int + 1) is None);
        }
    }
    None
}

/// The last offset below `below` at which the byte `c` stands in `s`.
pub fn bytes_rfind(s: &[u8], c: u8, below: usize) -> (r: Option<usize>)
    requires
        below <= s@.len(),
    ensures
        match r {
            Some(i) => last_byte_below(s@, c, below as int) == Some(i as int),
            None => last_byte_below(s@, c, below as int) is None,
        },
{
    let mut i: usize = below;
    while i > 0
        invariant
            i <= below <= s@.len(),
            last_byte_below(s@, c, below as int) == last_byte_below(s@, c, i as int),
        decreases i,
    {
        if s[i - 1] == c {
            return Some(i - 1);
        }
        i -= 1;
    }
    None
}

/// Whether two texts are equal.
pub fn same(a: &str, b: &str) -> (r: bool)
    ensures
        r == (a@ == b@),
{
    let x = a.as_bytes();
    let y = b.as_bytes();
    if x.len() != y.len() {
        return false;
    }
    let r = bytes_occur_at(x, y, 0);
    proof {
        assert(x@.subrange(0, x@.len() as int) =~= x@);
        if r {
            lemma_utf8_injective(a@, b@);
        }
    }
    r
}

/// The first offset at or after `from` at which `p` stands in `s`.
pub fn find_from(s: &str, p: &str, from: usize) -> (r: Option<usize>)
    ensures
        match r {
            Some(i) => first_at(utf8(s@), utf8(p@), from as int) == Some(i as int),
            None => first_at(utf8(s@), utf8(p@), from as int) is None,
        },
{
    bytes_find(s.as_bytes(), p.as_bytes(), from)
}

/// Whether `p` stands somewhere in `s`.
pub fn contains(s: &str, p: &str) -> (r: bool)
    ensures
        r == occurs(utf8(s@), utf8(p@)),
{
    find_from(s, p, 0).is_some()
}

/// Whether `s` begins with `p`.
pub fn starts_with(s: &str, p: &str) -> (r: bool)
    ensures
        r == occurs_at(utf8(s@), utf8(p@), 0),
{
    bytes_occur_at(s.as_bytes(), p.as_bytes(), 0)
}

/// The number of bytes of a text.
pub fn byte_len(s: &str) -> (n: usize)
    ensures
        n == utf8(s@).len(),
{
    s.as_bytes().len()
}

/// The text between two offsets.
pub fn substr<'a>(s: &'a str, a: usize, b: usize) -> (r: &'a str)
    requires
        a <= b <= utf8(s@).len(),
        is_char_boundary(utf8(s@), a as int),
        is_char_boundary(utf8(s@), b as int),
    ensures
        utf8(r@) == utf8(s@).subrange(a as int, b as int),
{
    proof {
        encode_utf8_valid_utf8(s@);
        lemma_boundary_in_prefix(utf8(s@), a as int, b as int);
    }
    let head = s.split_at(b).0;
    let r = head.split_at(a).1;
    assert(utf8(r@) =~= utf8(s@).subrange(a as int, b as int));
    r
}

/// A cut stays a cut in a prefix that reaches beyond it.
proof fn lemma_boundary_in_prefix(bytes: Seq<u8>, a: int, b: int)
    requires
        valid_utf8(bytes),
        0 <= a <= b <= bytes.len(),
        is_char_boundary(bytes, a),
        is_char_boundary(bytes, b),
    ensures
        is_char_boundary(bytes.subrange(0, b), a),
{
    let head = bytes.subrange(0, b);
    valid_utf8_split(bytes, b);
    is_char_boundary_start_end_of_seq(head);
    if a < b {
        is_char_boundary_iff_not_is_continuation_byte(bytes, a);
        is_char_boundary_iff_not_is_continuation_byte(head, a);
        assert(head[a] == bytes[a]);
    } else {
        assert(a == head.len());
    }
}

/// `s` with the bytes from `a` up to `b` replaced by `new`.
pub open spec fn spliced(s: Seq<u8>, a: int, b: int, new: Seq<u8>) -> Seq<u8> {
    s.subrange(0, a) + new + s.subrange(b, s.len() as int)
}

/// `s` with the text between two offsets replaced by `new`.
pub fn splice(s: &str, a: usize, b: usize, new: &str) -> (r: String)
    requires
        a <= b <= utf8(s@).len(),
        is_char_boundary(utf8(s@), a as int),
        is_char_boundary(utf8(s@), b as int),
    ensures
        utf8(r@) == spliced(utf8(s@), a as int, b as int, utf8(new@)),
{
    let head = s.split_at(a).0;
    let tail = s.split_at(b).1;
    let mut r = String::new();
    r.append(head);
    r.append(new);
    r.append(tail);
    proof {
        assert(r@ =~= head@ + new@ + tail@);
        lemma_utf8_add(head@ + new@, tail@);
        lemma_utf8_add(head@, new@);
    }
    r
}

/// The offsets from `from` on at which `p` stands in `s`, left to right, each
/// looked for behind the one before it.
pub open spec fn hits(s: Seq<u8>, p: Seq<u8>, from: int) -> Seq<int>
    decreases s.len() - from + 1,
{
    if from < 0 || p.len() == 0 {
        Seq::empty()
    } else {
        match first_at(s, p, from) {
            Some(i) => {
                proof {
                    lemma_first_at(s, p, from);
                }
                seq![i] + hits(s, p, i + p.len())
            },
            None => Seq::empty(),
        }
    }
}

/// An offset lies inside the stretch of `width` bytes that begins at one of `hs`.
pub open spec fn covered(hs: Seq<int>, width: int, x: int) -> bool {
    exists|k: int| 0 <= k < hs.len() && #[trigger] hs[k] <= x < hs[k] + width
}

/// What `hits` lists: occurrences, in ascending order, one behind the other.
pub proof fn lemma_hits(s: Seq<u8>, p: Seq<u8>, from: int)
    requires
        0 <= from,
    ensures
        forall|k: int|
            0 <= k < hits(s, p, from).len() ==> from <= #[trigger] hits(s, p, from)[k] && occurs_at(
                s,
                p,
                hits(s, p, from)[k],
            ),
        forall|j: int, k: int|
            0 <= j < k < hits(s, p, from).len() ==> #[trigger] hits(s, p, from)[j] + p.len()
                <= #[trigger] hits(s, p, from)[k],
    decreases s.len() - from + 1,
{
    lemma_first_at(s, p, from);
    if p.len() > 0 && first_at(s, p, from) is Some {
        let i = first_at(s, p, from)->0;
        let rest = hits(s, p, i + p.len());
        let all = hits(s, p, from);
        lemma_hits(s, p, i + p.len());
        assert(all =~= seq![i] + rest);
        assert forall|k: int| 0 <= k < all.len() implies from <= #[trigger] all[k] && occurs_at(
            s,
            p,
            all[k],
        ) by {
            if k > 0 {
                assert(all[k] == rest[k - 1]);
            }
        }
        assert forall|j: int, k: int| 0 <= j < k < all.len() implies #[trigger] all[j] + p.len()
            <= #[trigger] all[k] by {
            assert(all[k] == rest[k - 1]);
            if j > 0 {
                assert(all[j] == rest[j - 1]);
            }
        }
    }
}

/// `hits` misses nothing: an occurrence it does not list begins inside one that it does.
pub proof fn lemma_hits_complete(s: Seq<u8>, p: Seq<u8>, from: int, x: int)
    requires
        0 <= from <= x,
        p.len() > 0,
        occurs_at(s, p, x),
    ensures
        covered(hits(s, p, from), p.len() as int, x),
    decreases s.len() - from + 1,
{
    lemma_first_at(s, p, from);
    let i = first_at(s, p, from)->0;
    let rest = hits(s, p, i + p.len());
    let all = hits(s, p, from);
    assert(all =~= seq![i] + rest);
    if x < i + p.len() {
        assert(all[0] <= x < all[0] + p.len());
    } else {
        lemma_hits_complete(s, p, i + p.len(), x);
        let k = choose|k: int| 0 <= k < rest.len() && #[trigger] rest[k] <= x < rest[k] + p.len();
        assert(all[k + 1] == rest[k]);
    }
}

/// The offsets at which `p` stands in `s`, left to right, each looked for
/// behind the one before it.
pub fn find_hits(s: &str, p: &str) -> (r: Vec<usize>)
    requires
        utf8(p@).len() > 0,
    ensures
        r@.map_values(|i: usize| i as int) == hits(utf8(s@), utf8(p@), 0),
{
    let ghost b = utf8(s@);
    let ghost q = utf8(p@);
    let width = byte_len(p);
    let total = byte_len(s);
    let mut out: Vec<usize> = Vec::new();
    let mut from: usize = 0;
    assert(out@.map_values(|i: usize| i as int) + hits(b, q, 0) =~= hits(b, q, 0));
    loop
        invariant
            b == utf8(s@),
            q == utf8(p@),
            width == q.len(),
            width > 0,
            total == b.len(),
            from <= b.len(),
            out@.map_values(|i: usize| i as int) + hits(b, q, from as int) == hits(b, q, 0),
        decreases b.len() - from,
    {
        match find_from(s, p, from) {
            Some(i) => {
                proof {
                    lemma_first_at(b, q, from as int);
                    assert(i + width <= b.len());
                }
                let ghost before = out@;
                out.push(i);
                proof {
                    assert(out@.map_values(|i: usize| i as int) + hits(b, q, i + width)
                        =~= before.map_values(|i: usize| i as int) + hits(b, q, from as int));
                }
                from = i + width;
            },
            None => {
                assert(hits(b, q, from as int) =~= Seq::<int>::empty());
                assert(out@.map_values(|i: usize| i as int) =~= hits(b, q, 0));
                return out;
            },
        }
    }
}

/// Two texts, one behind the other.
pub fn join2(a: &str, b: &str) -> (r: String)
    ensures
        r@ == a@ + b@,
{
    let mut r = String::new();
    r.append(a);
    r.append(b);
    assert(r@ =~= a@ + b@);
    r
}

/// Three texts, one behind the other.
pub fn join3(a: &str, b: &str, c: &str) -> (r: String)
    ensures
        r@ == a@ + b@ + c@,
{
    let mut r = String::new();
    r.append(a);
    r.append(b);
    r.append(c);
    assert(r@ =~= a@ + b@ + c@);
    r
}

/// Four texts, one behind the other.
pub fn join4(a: &str, b: &str, c: &str, d: &str) -> (r: String)
    ensures
        r@ == a@ + b@ + c@ + d@,
{
    let mut r = String::new();
    r.append(a);
    r.append(b);
    r.append(c);
    r.append(d);
    assert(r@ =~= a@ + b@ + c@ + d@);
    r
}

/// Five texts, one behind the other.
pub fn join5(a: &str, b: &str, c: &str, d: &str, e: &str) -> (r: String)
    ensures
        r@ == a@ + b@ + c@ + d@ + e@,
{
    let mut r = String::new();
    r.append(a);
    r.append(b);
    r.append(c);
    r.append(d);
    r.append(e);
    assert(r@ =~= a@ + b@ + c@ + d@ + e@);
    r
}

/// Six texts, one behind the other.
pub fn join6(a: &str, b: &str, c: &str, d: &str, e: &str, f: &str) -> (r: String)
    ensures
        r@ == a@ + b@ + c@ + d@ + e@ + f@,
{
    let mut r = String::new();
    r.append(a);
    r.append(b);
    r.append(c);
    r.append(d);
    r.append(e);
    r.append(f);
    assert(r@ =~= a@ + b@ + c@ + d@ + e@ + f@);
    r
}

} // verus!
