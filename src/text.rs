//! Text primitives shared by the index: byte-wise ordering of strings,
//! case-insensitive prefix tests and the decimal form of house numbers.
use vstd::prelude::*;
use vstd::string::*;
use vstd::utf8::*;

verus! {

broadcast use vstd::string::group_string_axioms;

/// The UTF-8 encoding of a character sequence, the bytes on which `str`
/// compares and tests prefixes.
pub open spec fn utf8(s: Seq<char>) -> Seq<u8> {
    encode_utf8(s)
}

/// Strict lexicographic order on byte sequences, the order of `str`.
pub open spec fn lex_lt(a: Seq<u8>, b: Seq<u8>) -> bool
    decreases a.len(),
{
    if a.len() == 0 {
        b.len() > 0
    } else if b.len() == 0 {
        false
    } else if a[0] != b[0] {
        a[0] < b[0]
    } else {
        lex_lt(a.subrange(1, a.len() as int), b.subrange(1, b.len() as int))
    }
}

pub open spec fn lex_le(a: Seq<u8>, b: Seq<u8>) -> bool {
    lex_lt(a, b) || a == b
}

/// Strings ordered by their UTF-8 bytes, as `String`'s `Ord` orders them.
pub open spec fn text_lt(a: Seq<char>, b: Seq<char>) -> bool {
    lex_lt(utf8(a), utf8(b))
}

pub open spec fn text_le(a: Seq<char>, b: Seq<char>) -> bool {
    lex_le(utf8(a), utf8(b))
}

/// `p` is a prefix of `s` when both are read as UTF-8 bytes.
pub open spec fn text_prefix(p: Seq<char>, s: Seq<char>) -> bool {
    utf8(p).is_prefix_of(utf8(s))
}

pub proof fn lemma_lex_lt_irreflexive(a: Seq<u8>)
    ensures
        !lex_lt(a, a),
    decreases a.len(),
{
    if a.len() > 0 {
        lemma_lex_lt_irreflexive(a.subrange(1, a.len() as int));
    }
}

pub proof fn lemma_lex_lt_transitive(a: Seq<u8>, b: Seq<u8>, c: Seq<u8>)
    requires
        lex_lt(a, b),
        lex_lt(b, c),
    ensures
        lex_lt(a, c),
    decreases a.len(),
{
    if a.len() > 0 && b.len() > 0 && c.len() > 0 && a[0] == b[0] && b[0] == c[0] {
        lemma_lex_lt_transitive(
            a.subrange(1, a.len() as int),
            b.subrange(1, b.len() as int),
            c.subrange(1, c.len() as int),
        );
    }
}

pub proof fn lemma_lex_lt_asymmetric(a: Seq<u8>, b: Seq<u8>)
    requires
        lex_lt(a, b),
    ensures
        !lex_lt(b, a),
        a != b,
{
    if lex_lt(b, a) {
        lemma_lex_lt_transitive(a, b, a);
        lemma_lex_lt_irreflexive(a);
    }
    lemma_lex_lt_irreflexive(a);
}

pub proof fn lemma_lex_total(a: Seq<u8>, b: Seq<u8>)
    ensures
        lex_lt(a, b) || a == b || lex_lt(b, a),
    decreases a.len(),
{
    if a.len() > 0 && b.len() > 0 && a[0] == b[0] {
        let a1 = a.subrange(1, a.len() as int);
        let b1 = b.subrange(1, b.len() as int);
        lemma_lex_total(a1, b1);
        if a1 == b1 {
            assert(a =~= seq![a[0]] + a1);
            assert(b =~= seq![b[0]] + b1);
        }
    } else if a.len() == 0 && b.len() == 0 {
        assert(a =~= b);
    }
}

/// After an equal common part, the order is decided by what follows it.
proof fn lemma_lex_lt_skip(a: Seq<u8>, b: Seq<u8>, i: int)
    requires
        0 <= i <= a.len(),
        i <= b.len(),
        a.subrange(0, i) == b.subrange(0, i),
    ensures
        lex_lt(a, b) == lex_lt(a.subrange(i, a.len() as int), b.subrange(i, b.len() as int)),
    decreases i,
{
    if i > 0 {
        assert(a[0] == a.subrange(0, i)[0]);
        assert(b[0] == b.subrange(0, i)[0]);
        let a1 = a.subrange(1, a.len() as int);
        let b1 = b.subrange(1, b.len() as int);
        assert(a1.subrange(0, i - 1) =~= a.subrange(0, i).subrange(1, i));
        assert(b1.subrange(0, i - 1) =~= b.subrange(0, i).subrange(1, i));
        lemma_lex_lt_skip(a1, b1, i - 1);
        assert(a1.subrange(i - 1, a1.len() as int) =~= a.subrange(i, a.len() as int));
        assert(b1.subrange(i - 1, b1.len() as int) =~= b.subrange(i, b.len() as int));
    } else {
        assert(a.subrange(0, a.len() as int) =~= a);
        assert(b.subrange(0, b.len() as int) =~= b);
    }
}

/// Three-way comparison of byte strings: -1, 0 or 1.
pub fn compare_bytes(a: &[u8], b: &[u8]) -> (r: i8)
    ensures
        -1 <= r <= 1,
        r == -1 <==> lex_lt(a@, b@),
        r == 0 <==> a@ == b@,
        r == 1 <==> lex_lt(b@, a@),
{
    let mut i: usize = 0;
    while i < a.len() && i < b.len() && a[i] == b[i]
        invariant
            i <= a@.len(),
            i <= b@.len(),
            a@.subrange(0, i as int) == b@.subrange(0, i as int),
        decreases a.len() - i,
    {
        assert(a@.subrange(0, i + 1) =~= a@.subrange(0, i as int).push(a@[i as int]));
        assert(b@.subrange(0, i + 1) =~= b@.subrange(0, i as int).push(b@[i as int]));
        i = i + 1;
    }
    proof {
        lemma_lex_lt_skip(a@, b@, i as int);
        lemma_lex_lt_skip(b@, a@, i as int);
        let ra = a@.subrange(i as int, a@.len() as int);
        let rb = b@.subrange(i as int, b@.len() as int);
        if i < a.len() && i < b.len() {
            assert(ra[0] == a@[i as int]);
            assert(rb[0] == b@[i as int]);
        }
        lemma_lex_lt_irreflexive(a@);
        lemma_lex_total(a@, b@);
        if lex_lt(a@, b@) {
            lemma_lex_lt_asymmetric(a@, b@);
        }
        if lex_lt(b@, a@) {
            lemma_lex_lt_asymmetric(b@, a@);
        }
        if i == a.len() && i == b.len() {
            assert(a@ =~= a@.subrange(0, i as int));
            assert(b@ =~= b@.subrange(0, i as int));
        }
    }
    if i == a.len() {
        if i == b.len() {
            0
        } else {
            -1
        }
    } else if i == b.len() {
        1
    } else if a[i] < b[i] {
        -1
    } else {
        1
    }
}

/// Three-way comparison of two strings in the order of their bytes.
pub fn compare_text(a: &str, b: &str) -> (r: i8)
    ensures
        -1 <= r <= 1,
        r == -1 <==> text_lt(a@, b@),
        r == 0 <==> a@ == b@,
        r == 1 <==> text_lt(b@, a@),
{
    proof {
        encode_utf8_decode_utf8(a@);
        encode_utf8_decode_utf8(b@);
    }
    compare_bytes(a.as_bytes(), b.as_bytes())
}

/// Distinct strings have distinct encodings.
pub proof fn lemma_utf8_injective(a: Seq<char>, b: Seq<char>)
    requires
        utf8(a) == utf8(b),
    ensures
        a == b,
{
    encode_utf8_decode_utf8(a);
    encode_utf8_decode_utf8(b);
}

/// Whether `p` is a prefix of `s`, byte for byte.
pub fn starts_with(s: &str, p: &str) -> (r: bool)
    ensures
        r == text_prefix(p@, s@),
{
    let sb = s.as_bytes();
    let pb = p.as_bytes();
    if pb.len() > sb.len() {
        return false;
    }
    let mut i: usize = 0;
    while i < pb.len()
        invariant
            pb@ == utf8(p@),
            sb@ == utf8(s@),
            pb@.len() <= sb@.len(),
            i <= pb@.len(),
            forall|j: int| 0 <= j < i ==> pb@[j] == sb@[j],
        decreases pb.len() - i,
    {
        if pb[i] != sb[i] {
            assert(sb@.subrange(0, pb@.len() as int)[i as int] != pb@[i as int]);
            assert(!pb@.is_prefix_of(sb@));
            return false;
        }
        i = i + 1;
    }
    assert(pb@ =~= sb@.subrange(0, pb@.len() as int));
    true
}

/// What `str::to_lowercase` makes of a string.
pub uninterp spec fn lower_of(s: Seq<char>) -> Seq<char>;

/// Relies on `str::to_lowercase`: its result depends on the characters alone.
#[verifier::external_body]
pub(crate) fn lowercase(s: &str) -> (r: String)
    ensures
        r@ == lower_of(s@),
        s@.len() == 0 ==> r@.len() == 0,
{
    s.to_lowercase()
}

/// Case-insensitive equality: both sides lowered by `str::to_lowercase`.
pub open spec fn same_folded(a: Seq<char>, b: Seq<char>) -> bool {
    lower_of(a) == lower_of(b)
}

/// Case-insensitive prefix test: both sides lowered by `str::to_lowercase`.
pub open spec fn folded_prefix(p: Seq<char>, s: Seq<char>) -> bool {
    text_prefix(lower_of(p), lower_of(s))
}

pub fn equals_folded(a: &str, b: &str) -> (r: bool)
    ensures
        r == same_folded(a@, b@),
{
    let la = lowercase(a);
    let lb = lowercase(b);
    la == lb
}

pub fn starts_with_folded(s: &str, p: &str) -> (r: bool)
    ensures
        r == folded_prefix(p@, s@),
        p@.len() == 0 ==> lower_of(p@).len() == 0,
{
    let ls = lowercase(s);
    let lp = lowercase(p);
    starts_with(ls.as_str(), lp.as_str())
}

// ---------------------------------------------------------------------------
// Decimal numbers
// ---------------------------------------------------------------------------

pub open spec fn digit_char(d: int) -> char {
    if d == 0 { '0' }
    else if d == 1 { '1' }
    else if d == 2 { '2' }
    else if d == 3 { '3' }
    else if d == 4 { '4' }
    else if d == 5 { '5' }
    else if d == 6 { '6' }
    else if d == 7 { '7' }
    else if d == 8 { '8' }
    else { '9' }
}

pub open spec fn is_digit(c: char) -> bool {
    '0' <= c && c <= '9'
}

pub open spec fn digit_value(c: char) -> int {
    (c as int) - ('0' as int)
}

/// The decimal form of `n`, without leading zeros.
pub open spec fn decimal(n: nat) -> Seq<char>
    decreases n,
{
    if n < 10 {
        seq![digit_char(n as int)]
    } else {
        decimal(n / 10).push(digit_char((n % 10) as int))
    }
}

/// A house number that is stored as a number: exactly the decimal form of
/// some value that fits in 16 bits.
pub open spec fn is_clean(s: Seq<char>) -> bool {
    exists|n: nat| n <= 65535 && #[trigger] decimal(n) == s
}

/// The value of a string of decimal digits.
pub open spec fn digits_value(s: Seq<char>) -> int
    decreases s.len(),
{
    if s.len() == 0 {
        0
    } else {
        10 * digits_value(s.drop_last()) + digit_value(s.last())
    }
}

proof fn lemma_digit_char(d: int)
    requires
        0 <= d < 10,
    ensures
        is_digit(digit_char(d)),
        digit_value(digit_char(d)) == d,
        (digit_char(d) == '0') == (d == 0),
{
}

proof fn lemma_digit_roundtrip(c: char)
    requires
        is_digit(c),
    ensures
        digit_char(digit_value(c)) == c,
{
}

/// What the decimal form of a number looks like.
pub proof fn lemma_decimal_shape(n: nat)
    ensures
        decimal(n).len() >= 1,
        forall|i: int| 0 <= i < decimal(n).len() ==> is_digit(#[trigger] decimal(n)[i]),
        decimal(n)[0] == '0' ==> n == 0,
        digits_value(decimal(n)) == n,
        n <= 65535 ==> decimal(n).len() <= 5,
    decreases n,
{
    if n < 10 {
        lemma_digit_char(n as int);
        let s = decimal(n);
        assert(s.drop_last() =~= Seq::<char>::empty());
        assert(digits_value(s.drop_last()) == 0);
        assert(digits_value(s) == 10 * digits_value(s.drop_last()) + digit_value(s.last()));
    } else {
        lemma_decimal_shape(n / 10);
        lemma_digit_char((n % 10) as int);
        let s = decimal(n);
        assert(s.drop_last() =~= decimal(n / 10));
        assert(s.last() == digit_char((n % 10) as int));
        assert(digits_value(s) == 10 * digits_value(s.drop_last()) + digit_value(s.last()));
        assert(n == 10 * (n / 10) + n % 10);
        assert(forall|i: int| 0 <= i < decimal(n / 10).len() ==> s[i] == decimal(n / 10)[i]);
        assert(s[0] == decimal(n / 10)[0]);
        if n <= 65535 {
            assert(n / 10 <= 6553);
            lemma_decimal_len_small((n / 10) as nat);
        }
    }
}

proof fn lemma_decimal_len_small(m: nat)
    requires
        m <= 6553,
    ensures
        decimal(m).len() <= 4,
    decreases m,
{
    if m >= 10 {
        assert(m / 10 <= 655);
        lemma_decimal_len_tiny((m / 10) as nat, 3);
    }
}

proof fn lemma_decimal_len_tiny(m: nat, k: nat)
    requires
        k >= 1,
        k == 3 ==> m <= 655,
        k == 2 ==> m <= 65,
        k == 1 ==> m <= 6,
        k <= 3,
    ensures
        decimal(m).len() <= k,
    decreases k,
{
    if m >= 10 {
        assert(k >= 2);
        if k == 3 {
            assert(m / 10 <= 65);
        } else {
            assert(m / 10 <= 6);
        }
        lemma_decimal_len_tiny((m / 10) as nat, (k - 1) as nat);
    }
}

/// A string of digits without a leading zero is the decimal form of its value.
proof fn lemma_digits_decimal(s: Seq<char>)
    requires
        s.len() >= 1,
        forall|i: int| 0 <= i < s.len() ==> is_digit(#[trigger] s[i]),
        s.len() > 1 ==> s[0] != '0',
    ensures
        digits_value(s) >= 0,
        s[0] != '0' ==> digits_value(s) > 0,
        decimal(digits_value(s) as nat) == s,
    decreases s.len(),
{
    let c = s.last();
    assert(is_digit(s[s.len() - 1]));
    lemma_digit_roundtrip(c);
    assert(digits_value(s) == 10 * digits_value(s.drop_last()) + digit_value(c));
    if s.len() == 1 {
        assert(s.drop_last() =~= Seq::<char>::empty());
        assert(digits_value(s.drop_last()) == 0);
        assert(seq![c] =~= s);
    } else {
        let t = s.drop_last();
        assert(t[0] == s[0]);
        assert(forall|i: int| 0 <= i < t.len() ==> t[i] == s[i]);
        lemma_digits_decimal(t);
        let v = digits_value(t);
        let d = digit_value(c);
        assert(digits_value(s) == 10 * v + d);
        assert((10 * v + d) / 10 == v) by (nonlinear_arith)
            requires 0 <= d < 10, v >= 0;
        assert((10 * v + d) % 10 == d) by (nonlinear_arith)
            requires 0 <= d < 10, v >= 0;
        assert(t.push(c) =~= s);
    }
}

/// Whether a house number is stored as a number: it is the decimal form of
/// a value up to 65535, with no sign, no leading zero and nothing after it.
pub fn num_compressable(a: &str) -> (r: bool)
    ensures
        r == is_clean(a@),
{
    clean_value(a).is_some()
}

/// The value of a house number that is stored as a number.
pub fn clean_value(a: &str) -> (r: Option<u16>)
    ensures
        match r {
            Some(n) => decimal(n as nat) == a@ && is_clean(a@),
            None => !is_clean(a@),
        },
{
    let ghost s = a@;
    if !a.is_ascii() {
        proof {
            assert forall|n: nat| n <= 65535 implies #[trigger] decimal(n) != s by {
                lemma_decimal_shape(n);
                if decimal(n) == s {
                    assert forall|i: int| 0 <= i < s.len() implies '\0' <= #[trigger] s[i] <= '\u{7f}' by {
                        assert(is_digit(decimal(n)[i]));
                    }
                    assert(is_ascii_chars(s));
                }
            }
        }
        return None;
    }
    let b = a.as_bytes();
    proof {
        is_ascii_spec_bytes(a);
        assert(b@.len() == s.len());
    }
    let len = b.len();
    if len == 0 || len > 5 || (b[0] == 48u8 && len > 1) {
        proof {
            assert forall|n: nat| n <= 65535 implies #[trigger] decimal(n) != s by {
                lemma_decimal_shape(n);
                if decimal(n) == s && len > 1 {
                    assert(s[0] as u8 == b@[0]);
                }
            }
        }
        return None;
    }
    let mut value: u32 = 0;
    let mut i: usize = 0;
    while i < len
        invariant
            s == a@,
            len == b@.len() == s.len(),
            1 <= len <= 5,
            b@ == Seq::new(s.len(), |j: int| s[j] as u8),
            is_ascii_chars(s),
            i <= len,
            forall|j: int| 0 <= j < i ==> is_digit(#[trigger] s[j]),
            value as int == digits_value(s.subrange(0, i as int)),
            value < pow10(i as nat),
        decreases len - i,
    {
        let c = b[i];
        if c < 48u8 || c > 57u8 {
            proof {
                assert(s[i as int] as u8 == c);
                assert(s[i as int] <= '\u{7f}');
                assert(!is_digit(s[i as int]));
                assert forall|n: nat| n <= 65535 implies #[trigger] decimal(n) != s by {
                    lemma_decimal_shape(n);
                    if decimal(n) == s {
                        assert(is_digit(decimal(n)[i as int]));
                    }
                }
            }
            return None;
        }
        proof {
            assert(s[i as int] <= '\u{7f}');
            assert(s[i as int] as u8 == c);
            assert(is_digit(s[i as int]));
            assert(s.subrange(0, i + 1).drop_last() =~= s.subrange(0, i as int));
            assert(pow10((i + 1) as nat) == 10 * pow10(i as nat));
            assert(value * 10 + 9 < 10 * pow10(i as nat)) by (nonlinear_arith)
                requires value < pow10(i as nat);
            assert(pow10(i as nat) <= 10000) by {
                lemma_pow10_small(i as nat);
            }
        }
        value = value * 10 + (c - 48u8) as u32;
        i = i + 1;
    }
    proof {
        assert(s.subrange(0, len as int) =~= s);
        if len > 1 {
            assert(s[0] as u8 == b@[0]);
        }
        lemma_digits_decimal(s);
        if value > 65535 {
            assert forall|n: nat| n <= 65535 implies #[trigger] decimal(n) != s by {
                lemma_decimal_shape(n);
            }
        }
    }
    if value <= 65535 {
        Some(value as u16)
    } else {
        None
    }
}

pub open spec fn pow10(k: nat) -> int
    decreases k,
{
    if k == 0 {
        1
    } else {
        10 * pow10((k - 1) as nat)
    }
}

proof fn lemma_pow10_small(k: nat)
    requires
        k <= 4,
    ensures
        pow10(k) <= 10000,
{
    reveal_with_fuel(pow10, 5);
}

fn digit_text(d: u16) -> (r: &'static str)
    requires
        d < 10,
    ensures
        r@ == seq![digit_char(d as int)],
{
    proof {
        reveal_strlit("0");
        reveal_strlit("1");
        reveal_strlit("2");
        reveal_strlit("3");
        reveal_strlit("4");
        reveal_strlit("5");
        reveal_strlit("6");
        reveal_strlit("7");
        reveal_strlit("8");
        reveal_strlit("9");
    }
    match d {
        0 => "0",
        1 => "1",
        2 => "2",
        3 => "3",
        4 => "4",
        5 => "5",
        6 => "6",
        7 => "7",
        8 => "8",
        _ => "9",
    }
}

/// The decimal form of a number.
pub fn render_decimal(n: u16) -> (r: String)
    ensures
        r@ == decimal(n as nat),
    decreases n,
{
    if n < 10 {
        String::from_str(digit_text(n))
    } else {
        let head = render_decimal(n / 10);
        head.concat(digit_text(n % 10))
    }
}

} // verus!
