//! Numerals: which texts are numbers, and how numbers are written.

use vstd::prelude::*;
use vstd::string::StringExecFns;
use crate::node::{found, item, text_of, Sexp, SexpNode};
use crate::text::{lemma_ascii_boundary, lemma_end_boundary, substr, utf8};

verus! {

// ── Reading ──────────────────────────────────────────────────────────────────

/// A decimal digit.
pub open spec fn is_digit(b: u8) -> bool {
    0x30 <= b <= 0x39
}

/// The first offset at or after `i` that holds no digit.
pub open spec fn digits_end(s: Seq<u8>, i: int) -> int
    decreases s.len() - i,
{
    if i >= s.len() || !is_digit(s[i]) {
        i
    } else {
        digits_end(s, i + 1)
    }
}

/// The offset behind a sign at `i`, or `i` when there is none.
pub open spec fn past_sign(s: Seq<u8>, i: int) -> int {
    if i < s.len() && (s[i] == 0x2b || s[i] == 0x2d) {
        i + 1
    } else {
        i
    }
}

/// An ASCII letter in lower case, and any other byte as it is.
pub open spec fn lower(b: u8) -> u8 {
    if 0x41 <= b <= 0x5a {
        (b + 0x20) as u8
    } else {
        b
    }
}

/// From `i` on the text is `word`, in any case.
pub open spec fn spells(s: Seq<u8>, i: int, word: Seq<u8>) -> bool {
    &&& s.len() - i == word.len()
    &&& forall|k: int| 0 <= k < word.len() ==> lower(#[trigger] s[i + k]) == word[k]
}

/// From `i` on the text is an exponent, or nothing.
pub open spec fn is_exponent(s: Seq<u8>, i: int) -> bool {
    i == s.len() || {
        let d = past_sign(s, i + 1);
        &&& i < s.len()
        &&& s[i] == 0x65 || s[i] == 0x45
        &&& d < digits_end(s, d)
        &&& digits_end(s, d) == s.len()
    }
}

/// From `i` on the text is an unsigned decimal number: digits, of which some
/// may stand behind a point, and perhaps an exponent.
pub open spec fn is_decimal(s: Seq<u8>, i: int) -> bool {
    let a = digits_end(s, i);
    if a < s.len() && s[a] == 0x2e {
        let b = digits_end(s, a + 1);
        (a > i || b > a + 1) && is_exponent(s, b)
    } else {
        a > i && is_exponent(s, a)
    }
}

/// The text is a number: a decimal number, an infinity, or not-a-number by name.
pub open spec fn is_number(s: Seq<u8>) -> bool {
    let i = past_sign(s, 0);
    ||| is_decimal(s, i)
    ||| spells(s, i, seq![0x69u8, 0x6e, 0x66])
    ||| spells(s, i, seq![0x69u8, 0x6e, 0x66, 0x69, 0x6e, 0x69, 0x74, 0x79])
    ||| spells(s, i, seq![0x6eu8, 0x61, 0x6e])
}

fn skip_digits(s: &[u8], i: usize) -> (r: usize)
    requires
        i <= s@.len(),
    ensures
        r == digits_end(s@, i as int),
        i <= r <= s@.len(),
{
    let mut k: usize = i;
    while k < s.len() && 0x30 <= s[k] && s[k] <= 0x39
        invariant
            i <= k <= s@.len(),
            digits_end(s@, i as int) == digits_end(s@, k as int),
        decreases s@.len() - k,
    {
        k += 1;
    }
    k
}

fn skip_sign(s: &[u8], i: usize) -> (r: usize)
    requires
        i <= s@.len(),
    ensures
        r == past_sign(s@, i as int),
        i <= r <= s@.len(),
{
    if i < s.len() && (s[i] == 0x2b || s[i] == 0x2d) {
        i + 1
    } else {
        i
    }
}

fn spelled(s: &[u8], i: usize, word: &[u8]) -> (r: bool)
    requires
        i <= s@.len(),
    ensures
        r == spells(s@, i as int, word@),
{
    if s.len() - i != word.len() {
        return false;
    }
    let mut k: usize = 0;
    while k < word.len()
        invariant
            k <= word@.len(),
            i <= s@.len(),
            s@.len() - i == word@.len(),
            s@.len() <= usize::MAX,
            forall|j: int| 0 <= j < k ==> lower(#[trigger] s@[i + j]) == word@[j],
        decreases word@.len() - k,
    {
        let b = s[i + k];
        let c = if 0x41 <= b && b <= 0x5a {
            b + 0x20
        } else {
            b
        };
        if c != word[k] {
            assert(lower(s@[i + k]) != word@[k as int]);
            return false;
        }
        k += 1;
    }
    true
}

fn exponent(s: &[u8], i: usize) -> (r: bool)
    requires
        i <= s@.len(),
    ensures
        r == is_exponent(s@, i as int),
{
    if i == s.len() {
        return true;
    }
    if s[i] != 0x65 && s[i] != 0x45 {
        return false;
    }
    let d = skip_sign(s, i + 1);
    let e = skip_digits(s, d);
    d < e && e == s.len()
}

fn decimal_number(s: &[u8], i: usize) -> (r: bool)
    requires
        i <= s@.len(),
    ensures
        r == is_decimal(s@, i as int),
{
    let a = skip_digits(s, i);
    if a < s.len() && s[a] == 0x2e {
        let b = skip_digits(s, a + 1);
        (a > i || b > a + 1) && exponent(s, b)
    } else {
        a > i && exponent(s, a)
    }
}

/// Whether a text is a number.
pub fn is_number_text(text: &str) -> (r: bool)
    ensures
        r == is_number(utf8(text@)),
{
    let s = text.as_bytes();
    let i = skip_sign(s, 0);
    let inf: [u8; 3] = [0x69, 0x6e, 0x66];
    let infinity: [u8; 8] = [0x69, 0x6e, 0x66, 0x69, 0x6e, 0x69, 0x74, 0x79];
    let nan: [u8; 3] = [0x6e, 0x61, 0x6e];
    assert(inf@ =~= seq![0x69u8, 0x6e, 0x66]);
    assert(infinity@ =~= seq![0x69u8, 0x6e, 0x66, 0x69, 0x6e, 0x69, 0x74, 0x79]);
    assert(nan@ =~= seq![0x6eu8, 0x61, 0x6e]);
    decimal_number(s, i) || spelled(s, i, inf.as_slice()) || spelled(s, i, infinity.as_slice())
        || spelled(s, i, nan.as_slice())
}

/// The number at an index of a list, as it is written.
pub open spec fn numeral(t: Sexp, i: int) -> Option<Seq<u8>> {
    match item(t, i) {
        Some(n) => match text_of(n) {
            Some(s) => if is_number(s) {
                Some(s)
            } else {
                None
            },
            None => None,
        },
        None => None,
    }
}

/// The number at an index of a list, as it is written.
pub fn get_numeral(node: &SexpNode, i: usize) -> (r: Option<&str>)
    ensures
        match r {
            Some(s) => numeral(node.tree(), i as int) == Some(utf8(s@)),
            None => numeral(node.tree(), i as int) is None,
        },
{
    match node.get(i) {
        Some(n) => match n.as_str() {
            Some(s) => if is_number_text(s) {
                Some(s)
            } else {
                None
            },
            None => None,
        },
        None => None,
    }
}

/// A coordinate pair, as its numbers are written.
pub struct PointText {
    pub x: String,
    pub y: String,
}

/// A coordinate pair as a mathematical value.
pub struct Point {
    pub x: Seq<u8>,
    pub y: Seq<u8>,
}

impl View for PointText {
    type V = Point;

    open spec fn view(&self) -> Point {
        Point { x: utf8(self.x@), y: utf8(self.y@) }
    }
}

/// An optional coordinate pair as a mathematical value.
pub open spec fn opt_point(p: Option<PointText>) -> Option<Point> {
    match p {
        Some(p) => Some(p@),
        None => None,
    }
}

/// The pair of numbers behind the head of a list.
pub open spec fn pair(t: Sexp) -> Option<Point> {
    match (numeral(t, 1), numeral(t, 2)) {
        (Some(x), Some(y)) => Some(Point { x, y }),
        _ => None,
    }
}

/// The pair of numbers in the first list headed `tag` inside a list.
pub open spec fn point(t: Sexp, tag: Seq<u8>) -> Option<Point> {
    match found(t, tag) {
        Some(c) => pair(c),
        None => None,
    }
}

/// The pair of numbers behind the head of a list.
pub fn node_pair(node: &SexpNode) -> (r: Option<PointText>)
    ensures
        opt_point(r) == pair(node.tree()),
{
    match (get_numeral(node, 1), get_numeral(node, 2)) {
        (Some(x), Some(y)) => Some(PointText { x: x.to_owned(), y: y.to_owned() }),
        _ => None,
    }
}

/// The pair of numbers in the first list headed `tag` inside a list.
pub fn node_xy(node: &SexpNode, tag: &str) -> (r: Option<PointText>)
    ensures
        opt_point(r) == point(node.tree(), utf8(tag@)),
{
    match node.find(tag) {
        Some(c) => node_pair(c),
        None => None,
    }
}

// ── Writing ──────────────────────────────────────────────────────────────────

/// A byte stands somewhere in `s`.
pub open spec fn holds_byte(s: Seq<u8>, c: u8) -> bool {
    exists|i: int| 0 <= i < s.len() && #[trigger] s[i] == c
}

/// How many of the first `n` bytes of a fixed-point number are kept: zeros at
/// its end are not, and then neither is the point.
pub open spec fn kept(s: Seq<u8>, n: int) -> int
    decreases n,
{
    if n > 0 && s[n - 1] == 0x30 && holds_byte(s, 0x2e) {
        kept(s, n - 1)
    } else if n > 0 && s[n - 1] == 0x2e {
        n - 1
    } else {
        n
    }
}

/// A fixed-point number as a coordinate is written: without idle zeros, and
/// without a sign on zero.
pub open spec fn coordinate(s: Seq<u8>) -> Seq<u8> {
    let short = s.take(kept(s, s.len() as int));
    if short == seq![0x2du8, 0x30] {
        seq![0x30u8]
    } else {
        short
    }
}

/// A fixed-point number as a coordinate is written.
pub fn coordinate_text(fixed: &str) -> (r: String)
    ensures
        utf8(r@) == coordinate(utf8(fixed@)),
{
    let s = fixed.as_bytes();
    let mut dot = false;
    let mut i: usize = 0;
    while i < s.len()
        invariant
            i <= s@.len(),
            dot == exists|k: int| 0 <= k < i && #[trigger] s@[k] == 0x2e,
        decreases s@.len() - i,
    {
        if s[i] == 0x2e {
            dot = true;
        }
        i += 1;
    }
    assert(dot == holds_byte(s@, 0x2e));
    let mut n: usize = s.len();
    proof {
        lemma_end_boundary(fixed@);
    }
    while n > 0 && dot && s[n - 1] == 0x30
        invariant
            n <= s@.len(),
            s@ == utf8(fixed@),
            dot == holds_byte(s@, 0x2e),
            kept(s@, s@.len() as int) == kept(s@, n as int),
            vstd::utf8::is_char_boundary(s@, n as int),
        decreases n,
    {
        proof {
            lemma_ascii_boundary(fixed@, n - 1);
        }
        n -= 1;
    }
    if n > 0 && s[n - 1] == 0x2e {
        proof {
            lemma_ascii_boundary(fixed@, n - 1);
        }
        n -= 1;
    }
    assert(n == kept(s@, s@.len() as int));
    let short = substr(fixed, 0, n);
    assert(s@.subrange(0, n as int) =~= s@.take(n as int));
    let b = short.as_bytes();
    if b.len() == 2 && b[0] == 0x2d && b[1] == 0x30 {
        proof {
            assert(b@ =~= seq![0x2du8, 0x30]);
            reveal_strlit("0");
            crate::text::lemma_one_byte("0"@);
        }
        "0".to_owned()
    } else {
        short.to_owned()
    }
}

/// The digit of a number below ten.
pub open spec fn digit(n: int) -> char {
    if n == 0 {
        '0'
    } else if n == 1 {
        '1'
    } else if n == 2 {
        '2'
    } else if n == 3 {
        '3'
    } else if n == 4 {
        '4'
    } else if n == 5 {
        '5'
    } else if n == 6 {
        '6'
    } else if n == 7 {
        '7'
    } else if n == 8 {
        '8'
    } else {
        '9'
    }
}

/// A natural number in decimal.
pub open spec fn decimal(n: nat) -> Seq<char>
    decreases n,
{
    if n < 10 {
        seq![digit(n as int)]
    } else {
        decimal(n / 10).push(digit((n % 10) as int))
    }
}

/// A natural number in decimal.
pub fn decimal_text(n: u64) -> (r: String)
    ensures
        r@ == decimal(n as nat),
    decreases n,
{
    let mut r = if n < 10 {
        String::new()
    } else {
        decimal_text(n / 10)
    };
    let last = n % 10;
    let ghost before = r@;
    proof {
        reveal_strlit("0");
        reveal_strlit("1");
        reveal_strlit("2");
        reveal_strlit("3");
        reveal_strlit("4");
        reveal_strlit("5");
        reveal_strlit("6");
        reveal_strlit("7");
        reveal_strlit("8");
        reveal_strlit("9");
    }
    let d = if last == 0 {
        "0"
    } else if last == 1 {
        "1"
    } else if last == 2 {
        "2"
    } else if last == 3 {
        "3"
    } else if last == 4 {
        "4"
    } else if last == 5 {
        "5"
    } else if last == 6 {
        "6"
    } else if last == 7 {
        "7"
    } else if last == 8 {
        "8"
    } else {
        "9"
    };
    assert(d@ =~= seq![digit(last as int)]);
    r.append(d);
    assert(r@ =~= before.push(digit(last as int)));
    assert(n < 10 ==> r@ =~= seq![digit(n as int)]);
    r
}

/// Zeros that say nothing: those at the end of a fraction, with the point
/// where they are all of it.
pub open spec fn idle_zeros(z: Seq<u8>) -> bool {
    forall|k: int| 0 <= k < z.len() ==> #[trigger] z[k] == 0x30 || (k == 0 && z[k] == 0x2e)
}

/// A coordinate is written as the fixed-point number it is, but for idle zeros
/// and for the sign of zero. A fraction that is written does not end in a zero,
/// where the number has one point.
pub proof fn law_coordinate_keeps_the_number(s: Seq<u8>)
    ensures
        ({
            ||| exists|idle: Seq<u8>| s == #[trigger] (coordinate(s) + idle) && idle_zeros(idle) && (
            idle.len() > 0 ==> holds_byte(s, 0x2e))
            ||| coordinate(s) == seq![0x30u8] && exists|idle: Seq<u8>| #[trigger]
                idle_zeros(idle) && s == seq![0x2du8, 0x30] + idle
        }),
        holds_byte(coordinate(s), 0x2e) && (forall|i: int, j: int|
            0 <= i < s.len() && 0 <= j < s.len() && #[trigger] s[i] == 0x2e && #[trigger] s[j]
                == 0x2e ==> i == j) ==> coordinate(s).last() != 0x30 && coordinate(s).last() != 0x2e,
{
    let n = kept(s, s.len() as int);
    lemma_kept(s, s.len() as int);
    let short = s.take(n);
    let idle = s.skip(n);
    assert(s =~= short + idle);
    assert(idle_zeros(idle)) by {
        assert forall|k: int| 0 <= k < idle.len() implies #[trigger] idle[k] == 0x30 || (k == 0
            && idle[k] == 0x2e) by {
            assert(idle[k] == s[n + k]);
        }
    }
    if short == seq![0x2du8, 0x30] {
        assert(s == seq![0x2du8, 0x30] + idle);
    } else {
        assert(s == coordinate(s) + idle);
    }
    if holds_byte(coordinate(s), 0x2e) {
        let i = choose|i: int| 0 <= i < coordinate(s).len() && #[trigger] coordinate(s)[i] == 0x2e;
        assert(s[i] == 0x2e);
        assert(holds_byte(s, 0x2e));
    }
}

proof fn lemma_kept(s: Seq<u8>, n: int)
    requires
        0 <= n <= s.len(),
    ensures
        0 <= kept(s, n) <= n,
        forall|k: int| kept(s, n) < k < n ==> #[trigger] s[k] == 0x30,
        kept(s, n) < n ==> s[kept(s, n)] == 0x30 || s[kept(s, n)] == 0x2e,
        kept(s, n) < n ==> holds_byte(s, 0x2e),
        holds_byte(s, 0x2e) ==> kept(s, n) == 0 || (s[kept(s, n) - 1] != 0x30 && s[kept(s, n) - 1]
            != 0x2e) || (kept(s, n) < n && s[kept(s, n)] == 0x2e),
    decreases n,
{
    if n > 0 && s[n - 1] == 0x30 && holds_byte(s, 0x2e) {
        lemma_kept(s, n - 1);
    } else if n > 0 && s[n - 1] == 0x2e {
        assert(holds_byte(s, 0x2e));
    }
}

} // verus!
