//! Numeric literals.
//!
//! The grammar matches a number as an optional minus sign, an integer
//! part, and an optional fractional part. The builder keeps the exact
//! decimal the literal denotes, in a canonical form: integer-looking and
//! decimal-looking spellings of the same quantity (`123`, `123.0`,
//! `0123.000`) all come out as one value. The sign of a zero is kept, so
//! `-0` stays distinct from `0`. Rendering the decimal into a machine
//! floating-point format is left to the embedder.

use vstd::prelude::*;
use vstd::string::StrSliceExecFns;

verus! {

/// The mathematical shape of a parsed number: a sign and the canonical
/// digits on both sides of the decimal point, each digit a value in
/// `0 ..= 9`.
pub struct NumberModel {
    pub neg: bool,
    pub int_digits: Seq<u8>,
    pub frac_digits: Seq<u8>,
}

/// A numeric JSON value: the exact decimal that the literal denotes.
///
/// The denoted quantity is `int_digits . frac_digits`, negated when
/// `neg` is set; digits are stored as values `0 ..= 9`, most significant
/// first, in the canonical form that [`canonical`] describes.
#[derive(Debug, PartialEq)]
pub struct JsonNumber {
    pub neg: bool,
    pub int_digits: Vec<u8>,
    pub frac_digits: Vec<u8>,
}

impl View for JsonNumber {
    type V = NumberModel;

    open spec fn view(&self) -> NumberModel {
        NumberModel { neg: self.neg, int_digits: self.int_digits@, frac_digits: self.frac_digits@ }
    }
}

/// A decimal digit character.
pub open spec fn is_digit(c: char) -> bool {
    48 <= c as u32 <= 57
}

/// The value of a decimal digit character.
pub open spec fn digit_val(c: char) -> u8 {
    ((c as u32) - 48) as u8
}

/// Every character of `s` is a decimal digit.
pub open spec fn all_digits(s: Seq<char>) -> bool {
    forall|i: int| 0 <= i < s.len() ==> is_digit(#[trigger] s[i])
}

/// The text after the optional leading minus sign.
pub open spec fn unsigned_part(s: Seq<char>) -> Seq<char> {
    if s.len() > 0 && s[0] == '-' {
        s.skip(1)
    } else {
        s
    }
}

/// Position `k` splits `b` into a nonempty run of digits, a decimal
/// point, and another nonempty run of digits.
pub open spec fn valid_dot_split(b: Seq<char>, k: int) -> bool {
    &&& 0 < k
    &&& k + 1 < b.len()
    &&& b[k] == '.'
    &&& all_digits(b.subrange(0, k))
    &&& all_digits(b.subrange(k + 1, b.len() as int))
}

/// The texts the number grammar accepts: an optional minus sign, one or
/// more digits, and optionally a decimal point followed by one or more
/// digits.
pub open spec fn is_number_text(s: Seq<char>) -> bool {
    let b = unsigned_part(s);
    (b.len() > 0 && all_digits(b)) || (exists|k: int| valid_dot_split(b, k))
}

/// `s` without its leading zero digits.
pub open spec fn strip_leading_zeros(s: Seq<u8>) -> Seq<u8>
    decreases s.len(),
{
    if s.len() > 0 && s[0] == 0 {
        strip_leading_zeros(s.skip(1))
    } else {
        s
    }
}

/// `s` without its trailing zero digits.
pub open spec fn strip_trailing_zeros(s: Seq<u8>) -> Seq<u8>
    decreases s.len(),
{
    if s.len() > 0 && s.last() == 0 {
        strip_trailing_zeros(s.drop_last())
    } else {
        s
    }
}

/// The canonical integer part: leading zeros dropped, with a single
/// zero digit left when nothing else remains.
pub open spec fn canon_int(s: Seq<u8>) -> Seq<u8> {
    if strip_leading_zeros(s).len() == 0 {
        seq![0u8]
    } else {
        strip_leading_zeros(s)
    }
}

/// A number in canonical form: a nonempty integer part without a
/// superfluous leading zero, a fractional part without trailing zeros,
/// and every digit a value below ten.
pub open spec fn canonical(n: NumberModel) -> bool {
    &&& n.int_digits.len() > 0
    &&& (n.int_digits.len() > 1 ==> n.int_digits[0] != 0)
    &&& (n.frac_digits.len() > 0 ==> n.frac_digits.last() != 0)
    &&& forall|i: int| 0 <= i < n.int_digits.len() ==> #[trigger] n.int_digits[i] < 10
    &&& forall|i: int| 0 <= i < n.frac_digits.len() ==> #[trigger] n.frac_digits[i] < 10
}

/// What a numeric literal denotes: `None` where the text is not of the
/// accepted shape, otherwise the canonical decimal it spells.
pub open spec fn spec_parse_number(s: Seq<char>) -> Option<NumberModel> {
    let neg = s.len() > 0 && s[0] == '-';
    let b = unsigned_part(s);
    if b.len() > 0 && all_digits(b) {
        Some(
            NumberModel {
                neg,
                int_digits: canon_int(b.map_values(|c: char| digit_val(c))),
                frac_digits: Seq::empty(),
            },
        )
    } else if exists|k: int| valid_dot_split(b, k) {
        let k = choose|k: int| valid_dot_split(b, k);
        Some(
            NumberModel {
                neg,
                int_digits: canon_int(b.subrange(0, k).map_values(|c: char| digit_val(c))),
                frac_digits: strip_trailing_zeros(
                    b.subrange(k + 1, b.len() as int).map_values(|c: char| digit_val(c)),
                ),
            },
        )
    } else {
        None
    }
}

/// Two valid dot positions in one text coincide: everything but the dot
/// is a digit, and a dot is no digit.
proof fn lemma_dot_unique(b: Seq<char>, k1: int, k2: int)
    requires
        valid_dot_split(b, k1),
        valid_dot_split(b, k2),
    ensures
        k1 == k2,
{
    if k1 < k2 {
        assert(is_digit(b.subrange(k1 + 1, b.len() as int)[k2 - k1 - 1]));
        assert(b[k2] == '.');
    } else if k2 < k1 {
        assert(is_digit(b.subrange(k2 + 1, b.len() as int)[k1 - k2 - 1]));
        assert(b[k1] == '.');
    }
}

/// Appending a digit commutes with dropping leading zeros: a zero added
/// to nothing but zeros still strips away, anything else stays.
proof fn lemma_strip_leading_push(s: Seq<u8>, d: u8)
    ensures
        strip_leading_zeros(s.push(d)) == if strip_leading_zeros(s).len() == 0 && d == 0 {
            Seq::<u8>::empty()
        } else if strip_leading_zeros(s).len() == 0 {
            seq![d]
        } else {
            strip_leading_zeros(s).push(d)
        },
    decreases s.len(),
{
    if s.len() > 0 && s[0] == 0 {
        assert(s.push(d).skip(1) =~= s.skip(1).push(d));
        assert(s.push(d)[0] == 0);
        lemma_strip_leading_push(s.skip(1), d);
        assert(strip_leading_zeros(s.push(d)) == strip_leading_zeros(s.skip(1).push(d)));
        assert(strip_leading_zeros(s) == strip_leading_zeros(s.skip(1)));
    } else if s.len() == 0 {
        assert(s.push(d) =~= seq![d]);
        assert(seq![d][0] == d);
        assert(strip_leading_zeros(s) == s);
        if d == 0 {
            assert(seq![d].skip(1) =~= Seq::<u8>::empty());
            assert(strip_leading_zeros(seq![d]) == strip_leading_zeros(seq![d].skip(1)));
            assert(strip_leading_zeros(Seq::<u8>::empty()) == Seq::<u8>::empty());
        } else {
            assert(strip_leading_zeros(seq![d]) == seq![d]);
        }
    } else {
        assert(s.push(d)[0] == s[0]);
        assert(strip_leading_zeros(s) == s);
        assert(strip_leading_zeros(s.push(d)) == s.push(d));
    }
}

/// The exec parser: accepts exactly the texts of the number grammar and
/// returns the canonical decimal, as `spec_parse_number` states.
pub fn parse_number(s: &str) -> (r: Option<JsonNumber>)
    ensures
        match r {
            Some(n) => spec_parse_number(s@) == Some(n@) && canonical(n@),
            None => spec_parse_number(s@) is None,
        },
{
    let len = s.unicode_len();
    let ghost sv = s@;
    let mut i: usize = 0;
    let mut neg = false;
    if len > 0 && s.get_char(0) == '-' {
        neg = true;
        i = 1;
    }
    let ghost start = i as int;
    let ghost b = unsigned_part(sv);
    proof {
        assert(b =~= sv.subrange(start, sv.len() as int));
    }
    let mut int_digits: Vec<u8> = Vec::new();
    while i < len && char_digit(s.get_char(i)).is_some()
        invariant
            start <= i <= len,
            len == sv.len(),
            sv == s@,
            start == if neg { 1int } else { 0int },
            b == unsigned_part(sv),
            b =~= sv.subrange(start, sv.len() as int),
            neg ==> sv.len() > 0 && sv[0] == '-',
            !neg ==> (sv.len() == 0 || sv[0] != '-'),
            all_digits(sv.subrange(start, i as int)),
            int_digits@ == strip_leading_zeros(
                sv.subrange(start, i as int).map_values(|c: char| digit_val(c)),
            ),
            forall|j: int| 0 <= j < int_digits@.len() ==> #[trigger] int_digits@[j] < 10,
            int_digits@.len() > 0 ==> int_digits@[0] != 0,
        decreases len - i,
    {
        let d = char_digit(s.get_char(i)).unwrap();
        let ghost prefix = sv.subrange(start, i as int).map_values(|c: char| digit_val(c));
        if int_digits.len() > 0 || d != 0 {
            int_digits.push(d);
        }
        proof {
            assert(sv.subrange(start, i + 1).map_values(|c: char| digit_val(c)) =~= prefix.push(
                digit_val(sv[i as int]),
            ));
            assert(sv.subrange(start, i + 1) =~= sv.subrange(start, i as int).push(sv[i as int]));
            lemma_strip_leading_push(prefix, digit_val(sv[i as int]));
        }
        i = i + 1;
    }
    // The run of digits after the optional sign ends at `i`.
    let ghost int_end = i as int;
    if i == if neg { 1 } else { 0 } {
        // No digit at all where the integer part must stand.
        proof {
            lemma_reject_no_int(sv, b, start);
        }
        return None;
    }
    if i == len {
        // Digits reach the end of the text: the integer form.
        let int_digits = finish_int(int_digits);
        proof {
            assert(sv.subrange(start, i as int) =~= b);
            assert(b.len() > 0 && all_digits(b));
        }
        return Some(JsonNumber { neg, int_digits, frac_digits: Vec::new() });
    }
    if char_digit(s.get_char(i)).is_some() || s.get_char(i) != '.' {
        // A stray character where only a decimal point may stand.
        proof {
            lemma_reject_stray(sv, b, start, i as int);
        }
        return None;
    }
    let ghost dot = i as int;
    i = i + 1;
    let mut frac_digits: Vec<u8> = Vec::new();
    while i < len && char_digit(s.get_char(i)).is_some()
        invariant
            0 <= dot < i <= len,
            len == sv.len(),
            sv == s@,
            all_digits(sv.subrange(dot + 1, i as int)),
            frac_digits@ == sv.subrange(dot + 1, i as int).map_values(|c: char| digit_val(c)),
            forall|j: int| 0 <= j < frac_digits@.len() ==> #[trigger] frac_digits@[j] < 10,
        decreases len - i,
    {
        let d = char_digit(s.get_char(i)).unwrap();
        frac_digits.push(d);
        proof {
            assert(sv.subrange(dot + 1, i + 1) =~= sv.subrange(dot + 1, i as int).push(
                sv[i as int],
            ));
            assert(sv.subrange(dot + 1, i + 1).map_values(|c: char| digit_val(c)) =~= sv.subrange(
                dot + 1,
                i as int,
            ).map_values(|c: char| digit_val(c)).push(digit_val(sv[i as int])));
        }
        i = i + 1;
    }
    if i < len {
        // A character after the fractional digits.
        proof {
            lemma_reject_after_frac(sv, b, start, int_end, dot, i as int);
        }
        return None;
    }
    if frac_digits.len() == 0 {
        // A decimal point with nothing behind it.
        proof {
            lemma_reject_empty_frac(sv, b, start, int_end, dot);
        }
        return None;
    }
    // The dotted form: strip the fraction's trailing zeros and finish.
    while frac_digits.len() > 0 && frac_digits[frac_digits.len() - 1] == 0
        invariant
            strip_trailing_zeros(frac_digits@) == strip_trailing_zeros(
                sv.subrange(dot + 1, len as int).map_values(|c: char| digit_val(c)),
            ),
            forall|j: int| 0 <= j < frac_digits@.len() ==> #[trigger] frac_digits@[j] < 10,
        decreases frac_digits@.len(),
    {
        proof {
            assert(frac_digits@.drop_last() =~= frac_digits@.subrange(
                0,
                frac_digits@.len() - 1,
            ));
        }
        frac_digits.pop();
    }
    let int_digits = finish_int(int_digits);
    proof {
        lemma_accept_dotted(sv, b, start, dot);
        assert(strip_trailing_zeros(frac_digits@) == frac_digits@);
        assert(b.subrange(0, dot - start) =~= sv.subrange(start, dot));
        assert(b.subrange(dot - start + 1, b.len() as int) =~= sv.subrange(dot + 1, len as int));
    }
    Some(JsonNumber { neg, int_digits, frac_digits })
}

/// Classifies a character: its digit value where it is a decimal digit.
fn char_digit(c: char) -> (r: Option<u8>)
    ensures
        r is Some <==> is_digit(c),
        r is Some ==> r == Some(digit_val(c)),
{
    let u = c as u32;
    if 48 <= u && u <= 57 {
        Some((u - 48) as u8)
    } else {
        None
    }
}

/// Turns the stripped integer digits into the canonical integer part:
/// a lone zero where every digit was a zero.
fn finish_int(int_digits: Vec<u8>) -> (r: Vec<u8>)
    requires
        int_digits@.len() > 0 ==> int_digits@[0] != 0,
        forall|j: int| 0 <= j < int_digits@.len() ==> #[trigger] int_digits@[j] < 10,
        exists|raw: Seq<u8>| int_digits@ == strip_leading_zeros(raw),
    ensures
        forall|raw: Seq<u8>| int_digits@ == strip_leading_zeros(raw) ==> r@ == canon_int(raw),
        forall|j: int| 0 <= j < r@.len() ==> #[trigger] r@[j] < 10,
        r@.len() > 0,
        r@.len() > 1 ==> r@[0] != 0,
{
    let mut int_digits = int_digits;
    if int_digits.len() == 0 {
        int_digits.push(0);
        proof {
            assert(int_digits@ =~= seq![0u8]);
        }
    }
    int_digits
}

/// Without a digit after the optional sign no split can be valid and the
/// whole cannot be all digits: the text is rejected.
proof fn lemma_reject_no_int(sv: Seq<char>, b: Seq<char>, start: int)
    requires
        b == unsigned_part(sv),
        b =~= sv.subrange(start, sv.len() as int),
        0 <= start <= sv.len(),
        start < sv.len() ==> !is_digit(sv[start]),
    ensures
        spec_parse_number(sv) is None,
{
    if b.len() > 0 && all_digits(b) {
        assert(is_digit(b[0]));
        assert(b[0] == sv[start]);
    }
    if exists|k: int| valid_dot_split(b, k) {
        let k = choose|k: int| valid_dot_split(b, k);
        assert(is_digit(b.subrange(0, k)[0]));
        assert(b[0] == sv[start]);
    }
}

/// A character that is neither digit nor dot right after the integer
/// digits: the text is rejected.
proof fn lemma_reject_stray(sv: Seq<char>, b: Seq<char>, start: int, i: int)
    requires
        b == unsigned_part(sv),
        b =~= sv.subrange(start, sv.len() as int),
        0 <= start <= i < sv.len(),
        all_digits(sv.subrange(start, i)),
        !is_digit(sv[i]),
        sv[i] != '.',
    ensures
        spec_parse_number(sv) is None,
{
    if b.len() > 0 && all_digits(b) {
        assert(is_digit(b[i - start]));
    }
    if exists|k: int| valid_dot_split(b, k) {
        let k = choose|k: int| valid_dot_split(b, k);
        if k < i - start {
            assert(is_digit(sv.subrange(start, i)[k]));
        } else if k > i - start {
            assert(is_digit(b.subrange(0, k)[i - start]));
        } else {
            assert(b[k] == sv[i]);
        }
    }
}

/// A non-digit after the fractional digits: the text is rejected.
proof fn lemma_reject_after_frac(
    sv: Seq<char>,
    b: Seq<char>,
    start: int,
    int_end: int,
    dot: int,
    i: int,
)
    requires
        b == unsigned_part(sv),
        b =~= sv.subrange(start, sv.len() as int),
        0 <= start < int_end == dot < i < sv.len(),
        all_digits(sv.subrange(start, dot)),
        sv[dot] == '.',
        all_digits(sv.subrange(dot + 1, i)),
        !is_digit(sv[i]),
    ensures
        spec_parse_number(sv) is None,
{
    assert(!is_digit('.'));
    if b.len() > 0 && all_digits(b) {
        assert(is_digit(b[dot - start]));
    }
    if exists|k: int| valid_dot_split(b, k) {
        let k = choose|k: int| valid_dot_split(b, k);
        if k < dot - start {
            assert(is_digit(sv.subrange(start, dot)[k]));
        } else if k > dot - start {
            assert(is_digit(b.subrange(0, k)[dot - start]));
        } else {
            assert(is_digit(b.subrange(k + 1, b.len() as int)[i - start - k - 1]));
            assert(b[i - start] == sv[i]);
        }
    }
}

/// A decimal point with no digit behind it: the text is rejected.
proof fn lemma_reject_empty_frac(sv: Seq<char>, b: Seq<char>, start: int, int_end: int, dot: int)
    requires
        b == unsigned_part(sv),
        b =~= sv.subrange(start, sv.len() as int),
        0 <= start < int_end == dot < sv.len(),
        dot + 1 == sv.len(),
        all_digits(sv.subrange(start, dot)),
        sv[dot] == '.',
    ensures
        spec_parse_number(sv) is None,
{
    assert(!is_digit('.'));
    if b.len() > 0 && all_digits(b) {
        assert(is_digit(b[dot - start]));
    }
    if exists|k: int| valid_dot_split(b, k) {
        let k = choose|k: int| valid_dot_split(b, k);
        if k < dot - start {
            assert(is_digit(sv.subrange(start, dot)[k]));
        } else if k > dot - start {
            assert(is_digit(b.subrange(0, k)[dot - start]));
        }
    }
}

/// Digits, a dot, digits to the end: the text is accepted, and the one
/// valid split is at the dot.
proof fn lemma_accept_dotted(sv: Seq<char>, b: Seq<char>, start: int, dot: int)
    requires
        b == unsigned_part(sv),
        b =~= sv.subrange(start, sv.len() as int),
        0 <= start < dot,
        dot + 1 < sv.len(),
        all_digits(sv.subrange(start, dot)),
        sv[dot] == '.',
        all_digits(sv.subrange(dot + 1, sv.len() as int)),
    ensures
        valid_dot_split(b, dot - start),
        !(b.len() > 0 && all_digits(b)),
        (choose|k: int| valid_dot_split(b, k)) == dot - start,
{
    assert(!is_digit('.'));
    assert(b.subrange(0, dot - start) =~= sv.subrange(start, dot));
    assert(b.subrange(dot - start + 1, b.len() as int) =~= sv.subrange(dot + 1, sv.len() as int));
    assert(valid_dot_split(b, dot - start));
    assert(b[dot - start] == sv[dot]);
    let k = choose|k: int| valid_dot_split(b, k);
    lemma_dot_unique(b, k, dot - start);
}

} // verus!
