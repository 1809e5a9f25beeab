//! Text as sequences of characters and of UTF-8 bytes: comparing it, and writing numbers.
use crate::order::Ranked;
use vstd::prelude::*;
use vstd::utf8::{decode_utf8, encode_scalar, encode_utf8};

verus! {

/// `a` and `b` have a common beginning of length `k`, after which `a` ends or goes on with the
/// smaller element, while `b` goes on.
pub open spec fn parts_ways<A>(a: Seq<A>, b: Seq<A>, smaller: spec_fn(A, A) -> bool, k: int) -> bool {
    &&& 0 <= k <= a.len()
    &&& k < b.len()
    &&& forall|i: int| 0 <= i < k ==> #[trigger] a[i] == b[i]
    &&& k == a.len() || smaller(a[k], b[k])
}

/// The lexicographic order that `smaller` gives on sequences.
pub open spec fn lexicographic<A>(a: Seq<A>, b: Seq<A>, smaller: spec_fn(A, A) -> bool) -> bool {
    exists|k: int| #[trigger] parts_ways(a, b, smaller, k)
}

/// `smaller` is a strict total order.
pub open spec fn strict_total_order<A>(smaller: spec_fn(A, A) -> bool) -> bool {
    &&& forall|x: A| !#[trigger] smaller(x, x)
    &&& forall|x: A, y: A, z: A| #[trigger]
        smaller(x, y) && #[trigger] smaller(y, z) ==> smaller(x, z)
    &&& forall|x: A, y: A| #[trigger] smaller(x, y) || x == y || smaller(y, x)
}

pub proof fn lemma_lexicographic_irreflexive<A>(a: Seq<A>, smaller: spec_fn(A, A) -> bool)
    requires
        strict_total_order(smaller),
    ensures
        !lexicographic(a, a, smaller),
{
    if lexicographic(a, a, smaller) {
        let k = choose|k: int| #[trigger] parts_ways(a, a, smaller, k);
        assert(smaller(a[k], a[k]));
    }
}

pub proof fn lemma_lexicographic_transitive<A>(
    a: Seq<A>,
    b: Seq<A>,
    c: Seq<A>,
    smaller: spec_fn(A, A) -> bool,
)
    requires
        strict_total_order(smaller),
        lexicographic(a, b, smaller),
        lexicographic(b, c, smaller),
    ensures
        lexicographic(a, c, smaller),
{
    let j = choose|k: int| #[trigger] parts_ways(a, b, smaller, k);
    let k = choose|k: int| #[trigger] parts_ways(b, c, smaller, k);
    if j <= k {
        assert(forall|i: int| 0 <= i < j ==> #[trigger] a[i] == b[i] && b[i] == c[i]);
        if j < a.len() && j < k {
            assert(b[j] == c[j]);
        }
        if j < a.len() && j == k {
            assert(smaller(a[j], b[j]) && smaller(b[j], c[j]));
        }
        assert(parts_ways(a, c, smaller, j));
    } else {
        assert forall|i: int| 0 <= i < k implies #[trigger] a[i] == c[i] by {
            assert(b[i] == c[i]);
        }
        assert(a[k] == b[k]);
        assert(parts_ways(a, c, smaller, k));
    }
}

pub proof fn lemma_lexicographic_trichotomous<A>(
    a: Seq<A>,
    b: Seq<A>,
    smaller: spec_fn(A, A) -> bool,
)
    requires
        strict_total_order(smaller),
    ensures
        lexicographic(a, b, smaller) || a == b || lexicographic(b, a, smaller),
{
    lemma_parting_from(a, b, smaller, 0);
}

proof fn lemma_parting_from<A>(a: Seq<A>, b: Seq<A>, smaller: spec_fn(A, A) -> bool, from: int)
    requires
        strict_total_order(smaller),
        0 <= from <= a.len(),
        from <= b.len(),
        forall|i: int| 0 <= i < from ==> #[trigger] a[i] == b[i],
    ensures
        lexicographic(a, b, smaller) || a == b || lexicographic(b, a, smaller),
    decreases a.len() - from,
{
    if from == a.len() {
        if from < b.len() {
            assert(parts_ways(a, b, smaller, from));
        } else {
            assert(a =~= b);
        }
    } else if from == b.len() {
        assert forall|i: int| 0 <= i < from implies #[trigger] b[i] == a[i] by {
            assert(a[i] == b[i]);
        }
        assert(parts_ways(b, a, smaller, from));
    } else if a[from] == b[from] {
        lemma_parting_from(a, b, smaller, from + 1);
    } else if smaller(a[from], b[from]) {
        assert(parts_ways(a, b, smaller, from));
    } else {
        assert forall|i: int| 0 <= i < from implies #[trigger] b[i] == a[i] by {
            assert(a[i] == b[i]);
        }
        assert(smaller(b[from], a[from]));
        assert(parts_ways(b, a, smaller, from));
    }
}

/// The order of strings: lexicographic by the values of their UTF-8 bytes.
pub open spec fn text_before(a: Seq<char>, b: Seq<char>) -> bool {
    lexicographic(encode_utf8(a), encode_utf8(b), |x: u8, y: u8| x < y)
}

pub proof fn lemma_text_order()
    ensures
        strict_total_order(|a: Seq<char>, b: Seq<char>| text_before(a, b)),
{
    broadcast use vstd::utf8::group_utf8_lib;

    let byte = |x: u8, y: u8| x < y;
    let f = |a: Seq<char>, b: Seq<char>| text_before(a, b);
    assert forall|a: Seq<char>| !#[trigger] f(a, a) by {
        lemma_lexicographic_irreflexive(encode_utf8(a), byte);
    }
    assert forall|a: Seq<char>, b: Seq<char>, c: Seq<char>| #[trigger]
        f(a, b) && #[trigger] f(b, c) implies f(a, c) by {
        lemma_lexicographic_transitive(encode_utf8(a), encode_utf8(b), encode_utf8(c), byte);
    }
    assert forall|a: Seq<char>, b: Seq<char>| #[trigger] f(a, b) || a == b || f(b, a) by {
        lemma_lexicographic_trichotomous(encode_utf8(a), encode_utf8(b), byte);
        assert(decode_utf8(encode_utf8(a)) == a);
        assert(decode_utf8(encode_utf8(b)) == b);
    }
}

/// Whether `a` stands before `b` in the order of strings.
pub fn is_text_before(a: &str, b: &str) -> (r: bool)
    ensures
        r == text_before(a@, b@),
{
    let x = a.as_bytes();
    let y = b.as_bytes();
    let ghost smaller = |p: u8, q: u8| p < q;
    let mut i: usize = 0;
    while i < x.len() && i < y.len() && x[i] == y[i]
        invariant
            i <= x.len(),
            i <= y.len(),
            forall|j: int| 0 <= j < i ==> #[trigger] x[j] == y[j],
        decreases x.len() - i,
    {
        i += 1;
    }
    let r: bool = i < y.len() && (i == x.len() || x[i] < y[i]);
    proof {
        if r {
            assert(parts_ways(x@, y@, smaller, i as int));
        } else if lexicographic(x@, y@, smaller) {
            let k = choose|k: int| #[trigger] parts_ways(x@, y@, smaller, k);
            if k < i {
                assert(x[k] == y[k]);
            } else if i < k {
                assert(x@[i as int] == y@[i as int]);
            }
        }
    }
    r
}

impl Ranked for String {
    type Key = Seq<char>;

    open spec fn key(v: Seq<char>) -> Seq<char> {
        v
    }

    open spec fn before(a: Seq<char>, b: Seq<char>) -> bool {
        text_before(a, b)
    }

    proof fn irreflexive(a: Seq<char>) {
        lemma_text_order();
        let f = |a: Seq<char>, b: Seq<char>| text_before(a, b);
        assert(!f(a, a));
    }

    proof fn transitive(a: Seq<char>, b: Seq<char>, c: Seq<char>) {
        lemma_text_order();
        let f = |a: Seq<char>, b: Seq<char>| text_before(a, b);
        assert(f(a, b) && f(b, c));
    }

    proof fn trichotomous(a: Seq<char>, b: Seq<char>) {
        lemma_text_order();
        let f = |a: Seq<char>, b: Seq<char>| text_before(a, b);
        assert(f(a, b) || a == b || f(b, a));
    }

    fn is_before(&self, other: &Self) -> (r: bool) {
        is_text_before(self.as_str(), other.as_str())
    }
}

/// The encoding of two texts in a row is that of the first, then that of the second.
pub proof fn lemma_encode_concat(a: Seq<char>, b: Seq<char>)
    ensures
        encode_utf8(a + b) == encode_utf8(a) + encode_utf8(b),
    decreases a.len(),
{
    if a.len() == 0 {
        assert(a + b =~= b);
        assert(encode_utf8(a) + encode_utf8(b) =~= encode_utf8(b));
    } else {
        lemma_encode_concat(a.drop_first(), b);
        assert((a + b).drop_first() =~= a.drop_first() + b);
        assert(encode_utf8(a + b) =~= encode_utf8(a) + encode_utf8(b));
    }
}

/// A byte below 0x80 in the encoding of a text is a character of the text.
pub proof fn lemma_ascii_byte(text: Seq<char>, k: int) -> (i: int)
    requires
        0 <= k < encode_utf8(text).len(),
        encode_utf8(text)[k] < 0x80,
    ensures
        0 <= i < text.len(),
        text[i] as u32 == encode_utf8(text)[k] as u32,
    decreases text.len(),
{
    let scalar = text[0] as u32;
    let first = encode_scalar(scalar);
    let rest = encode_utf8(text.drop_first());
    assert(encode_utf8(text) == first + rest);
    if k < first.len() {
        assert(first[k] < 0x80);
        assert(scalar <= 0x7f ==> (scalar & 0x7f) == scalar) by (bit_vector);
        assert(forall|y: u8| #[trigger] (0x80u8 | y) >= 0x80u8) by (bit_vector);
        assert(forall|y: u8| #[trigger] (0xC0u8 | y) >= 0x80u8) by (bit_vector);
        assert(forall|y: u8| #[trigger] (0xE0u8 | y) >= 0x80u8) by (bit_vector);
        assert(forall|y: u8| #[trigger] (0xF0u8 | y) >= 0x80u8) by (bit_vector);
        0
    } else {
        assert(rest[k - first.len()] == encode_utf8(text)[k]);
        let i = lemma_ascii_byte(text.drop_first(), k - first.len());
        i + 1
    }
}

/// The decimal digit of a number below ten.
pub open spec fn digit(n: nat) -> char {
    (('0' as u32) + n) as char
}

/// A number in decimal digits, without leading zeros.
pub open spec fn decimal(n: nat) -> Seq<char>
    decreases n,
{
    if n < 10 {
        seq![digit(n)]
    } else {
        decimal(n / 10).push(digit(n % 10))
    }
}

fn digit_text(n: u64) -> (out: &'static str)
    requires
        n < 10,
    ensures
        out@ == seq![digit(n as nat)],
{
    proof {
        reveal_strlit("0");
        reveal_strlit("1");
        reveal_strlit("2");
        reveal_strlit("3");
        reveal_strlit("4");
        reveal_strlit("5");
        reveal_strlit("6");
        reveal_strlit("7");
        reveal_strlit("8");
        reveal_strlit("9");
    }
    let out: &'static str = if n == 0 {
        "0"
    } else if n == 1 {
        "1"
    } else if n == 2 {
        "2"
    } else if n == 3 {
        "3"
    } else if n == 4 {
        "4"
    } else if n == 5 {
        "5"
    } else if n == 6 {
        "6"
    } else if n == 7 {
        "7"
    } else if n == 8 {
        "8"
    } else {
        "9"
    };
    proof {
        assert(out@ =~= seq![digit(n as nat)]);
    }
    out
}

/// Writes a number in decimal digits.
pub fn decimal_text(n: u64) -> (out: String)
    ensures
        out@ == decimal(n as nat),
    decreases n,
{
    if n < 10 {
        digit_text(n).to_owned()
    } else {
        let mut out = decimal_text(n / 10);
        let ghost before = out@;
        out.append(digit_text(n % 10));
        proof {
            assert(out@ =~= before.push(digit((n % 10) as nat)));
        }
        out
    }
}

/// The last three digits of a number.
pub open spec fn last_three(n: nat) -> Seq<char> {
    seq![digit(n / 100 % 10), digit(n / 10 % 10), digit(n % 10)]
}

/// A number in decimal digits, with a comma before each group of three.
pub open spec fn grouped(n: nat) -> Seq<char>
    decreases n,
{
    if n < 1000 {
        decimal(n)
    } else {
        grouped(n / 1000) + seq![','] + last_three(n)
    }
}

/// `text` with spaces before it, so that it is at least `width` characters long.
pub open spec fn right_aligned(text: Seq<char>, width: nat) -> Seq<char> {
    let missing = if text.len() < width {
        (width - text.len()) as nat
    } else {
        0
    };
    Seq::new(missing, |i: int| ' ') + text
}

/// Writes a number in decimal digits, with a comma before each group of three.
pub fn grouped_text(n: u64) -> (out: String)
    ensures
        out@ == grouped(n as nat),
    decreases n,
{
    if n < 1000 {
        decimal_text(n)
    } else {
        let mut out = grouped_text(n / 1000);
        let ghost before = out@;
        out.append(",");
        out.append(digit_text(n / 100 % 10));
        out.append(digit_text(n / 10 % 10));
        out.append(digit_text(n % 10));
        proof {
            reveal_strlit(",");
            assert(out@ =~= before + seq![','] + last_three(n as nat));
        }
        out
    }
}

/// How many characters a number takes up when it is written in groups of three.
pub fn grouped_width(n: u64) -> (out: u64)
    ensures
        out == grouped(n as nat).len(),
        out <= n / 100 + 3,
    decreases n,
{
    if n < 10 {
        1
    } else if n < 100 {
        proof {
            reveal_with_fuel(decimal, 2);
        }
        2
    } else if n < 1000 {
        proof {
            reveal_with_fuel(decimal, 3);
        }
        3
    } else {
        grouped_width(n / 1000) + 4
    }
}

/// Writes a number in groups of three, with spaces before it up to the given width.
pub fn aligned_text(n: u64, width: u64) -> (out: String)
    ensures
        out@ == right_aligned(grouped(n as nat), width as nat),
{
    let number = grouped_text(n);
    let taken: u64 = grouped_width(n);
    let mut out = String::new();
    let mut i: u64 = taken;
    proof {
        assert(out@ =~= Seq::new(0, |k: int| ' '));
    }
    while i < width
        invariant
            taken == grouped(n as nat).len(),
            taken <= i,
            i <= width || i == taken,
            out@ == Seq::new((i - taken) as nat, |k: int| ' '),
        decreases width - i,
    {
        out.append(" ");
        proof {
            reveal_strlit(" ");
            assert(out@ =~= Seq::new((i + 1 - taken) as nat, |k: int| ' '));
        }
        i += 1;
    }
    out.append(number.as_str());
    proof {
        assert(out@ =~= right_aligned(grouped(n as nat), width as nat));
    }
    out
}

/// The number that decimal digits stand for.
pub open spec fn value_of(digits: Seq<char>) -> int
    decreases digits.len(),
{
    if digits.len() == 0 {
        0
    } else {
        10 * value_of(digits.drop_last()) + (digits.last() as u32 - '0' as u32)
    }
}

proof fn lemma_digit(n: nat)
    requires
        n < 10,
    ensures
        digit(n) as u32 - '0' as u32 == n,
        '0' <= digit(n) <= '9',
{
    assert(n == 0 || n == 1 || n == 2 || n == 3 || n == 4 || n == 5 || n == 6 || n == 7 || n == 8
        || n == 9);
}

/// A number that is written in decimal is read as it was meant. It is written in digits alone, and
/// without a leading zero unless it is zero.
pub proof fn law_decimal_numbers_are_read(n: nat)
    ensures
        value_of(decimal(n)) == n,
        decimal(n).len() > 0,
        forall|i: int| 0 <= i < decimal(n).len() ==> '0' <= #[trigger] decimal(n)[i] <= '9',
        decimal(n).len() > 1 ==> decimal(n)[0] != '0',
    decreases n,
{
    if n < 10 {
        lemma_digit(n);
        assert(decimal(n).drop_last() =~= Seq::<char>::empty());
        assert(value_of(Seq::<char>::empty()) == 0);
    } else {
        law_decimal_numbers_are_read(n / 10);
        lemma_digit(n % 10);
        assert(decimal(n).drop_last() =~= decimal(n / 10));
        assert(decimal(n)[0] == decimal(n / 10)[0]);
        if n / 10 < 10 {
            lemma_digit(n / 10);
            assert(decimal(n)[0] == digit(n / 10));
        } else {
            assert(decimal(n / 10).len() > 1) by {
                law_decimal_numbers_are_read(n / 10 / 10);
            }
        }
    }
}

/// `text` without its commas.
pub open spec fn without_commas(text: Seq<char>) -> Seq<char>
    decreases text.len(),
{
    if text.len() == 0 {
        text
    } else if text.last() == ',' {
        without_commas(text.drop_last())
    } else {
        without_commas(text.drop_last()).push(text.last())
    }
}

proof fn lemma_comma_free(text: Seq<char>)
    requires
        !text.contains(','),
    ensures
        without_commas(text) == text,
    decreases text.len(),
{
    if text.len() > 0 {
        let shorter = text.drop_last();
        assert(!shorter.contains(',')) by {
            if shorter.contains(',') {
                let i = choose|i: int| 0 <= i < shorter.len() && shorter[i] == ',';
                assert(text[i] == ',');
            }
        }
        lemma_comma_free(shorter);
        assert(text.contains(text[text.len() - 1]));
        assert(shorter.push(text.last()) =~= text);
    }
}

proof fn lemma_decimal_three_more(n: nat)
    requires
        n >= 1000,
    ensures
        decimal(n) == decimal(n / 1000) + last_three(n),
{
    assert(n / 10 / 10 == n / 100);
    assert(n / 100 / 10 == n / 1000);
    assert(decimal(n) == decimal(n / 10).push(digit(n % 10)));
    assert(decimal(n / 10) == decimal(n / 100).push(digit(n / 10 % 10)));
    assert(decimal(n / 100) == decimal(n / 1000).push(digit(n / 100 % 10)));
    assert(decimal(n) =~= decimal(n / 1000) + last_three(n));
}

/// A number in groups is the number in decimal with commas, one before each three digits counted
/// from the end, and none at the beginning.
pub proof fn law_groups_are_of_three(n: nat)
    ensures
        without_commas(grouped(n)) == decimal(n),
        grouped(n).len() > 0,
        grouped(n)[0] != ',',
        forall|i: int|
            0 <= i < grouped(n).len() ==> (#[trigger] grouped(n)[i] == ',' <==> (grouped(n).len()
                - i) % 4 == 0),
    decreases n,
{
    if n < 1000 {
        law_decimal_numbers_are_read(n);
        if decimal(n).contains(',') {
            let i = choose|i: int| 0 <= i < decimal(n).len() && decimal(n)[i] == ',';
            assert('0' <= decimal(n)[i] <= '9');
        }
        lemma_comma_free(decimal(n));
        reveal_with_fuel(decimal, 3);
        assert(decimal(n).len() <= 3);
        assert forall|i: int| 0 <= i < grouped(n).len() implies (#[trigger] grouped(n)[i] == ','
            <==> (grouped(n).len() - i) % 4 == 0) by {
            assert(decimal(n).contains(decimal(n)[i]));
        }
        assert(decimal(n).contains(decimal(n)[0]));
    } else {
        let m = n / 1000;
        law_groups_are_of_three(m);
        lemma_decimal_three_more(n);
        lemma_digit(n / 100 % 10);
        lemma_digit(n / 10 % 10);
        lemma_digit(n % 10);
        let g = grouped(n);
        let a = g.drop_last();
        let b = a.drop_last();
        let c = b.drop_last();
        assert(c =~= grouped(m).push(','));
        assert(c.drop_last() =~= grouped(m));
        assert(without_commas(c) == decimal(m));
        assert(without_commas(b) == decimal(m).push(digit(n / 100 % 10)));
        assert(without_commas(a) == decimal(m).push(digit(n / 100 % 10)).push(digit(n / 10 % 10)));
        assert(without_commas(g) =~= decimal(m) + last_three(n));
        assert forall|i: int| 0 <= i < g.len() implies (#[trigger] g[i] == ',' <==> (g.len() - i)
            % 4 == 0) by {
            if i < grouped(m).len() {
                assert(g[i] == grouped(m)[i]);
                assert((g.len() - i) % 4 == (grouped(m).len() - i) % 4);
            }
        }
    }
}

/// Aligned text ends with what was to be aligned, has spaces before it and nothing else, and is as
/// wide as asked for unless it is wider by itself.
pub proof fn law_aligned_text_keeps_its_end(text: Seq<char>, width: nat)
    ensures
        right_aligned(text, width).len() == if text.len() < width {
            width
        } else {
            text.len()
        },
        right_aligned(text, width).skip(right_aligned(text, width).len() - text.len()) == text,
        forall|i: int|
            0 <= i < right_aligned(text, width).len() - text.len() ==> #[trigger] right_aligned(
                text,
                width,
            )[i] == ' ',
{
    assert(right_aligned(text, width).skip(right_aligned(text, width).len() - text.len())
        =~= text);
}

/// The order of strings: where their bytes first differ, the smaller byte comes first, and a string
/// comes before those that go on after it.
pub proof fn law_text_is_ordered_by_the_first_difference(
    a: Seq<char>,
    b: Seq<char>,
    common: Seq<u8>,
    x: u8,
    y: u8,
    u: Seq<u8>,
    v: Seq<u8>,
)
    requires
        encode_utf8(b) == common + seq![y] + v,
        encode_utf8(a) == common || (encode_utf8(a) == common + seq![x] + u && x < y),
    ensures
        text_before(a, b),
        !text_before(b, a),
        !text_before(a, a),
{
    let smaller = |p: u8, q: u8| p < q;
    let k = common.len() as int;
    let (s, t) = (encode_utf8(a), encode_utf8(b));
    assert forall|i: int| 0 <= i < k implies #[trigger] s[i] == t[i] by {}
    assert(parts_ways(s, t, smaller, k));
    lemma_text_order();
    let f = |p: Seq<char>, q: Seq<char>| text_before(p, q);
    assert(f(a, b));
    assert(!f(a, a));
    if text_before(b, a) {
        assert(f(b, a));
    }
}

} // verus!
