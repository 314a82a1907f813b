//! Setting values in their textual form: integers, decimal numbers, colors
//! and flags, with the parsers that read them back.
use vstd::prelude::*;
use crate::text::{decimal, digit_char, push_char, push_decimal};

verus! {

/// Why a textual setting value was refused.
#[derive(Clone, Copy, Debug, PartialEq, Eq, Structural)]
pub enum ParseError {
    /// Not a number, or one out of range.
    MalformedNumber,
    /// Fewer fields than the value has components.
    WrongFieldCount,
    /// No setting of that name.
    UnknownSetting,
}

pub open spec fn is_digit(c: char) -> bool {
    '0' <= c && c <= '9'
}

pub open spec fn digit_value(c: char) -> nat {
    (c as u32 - '0' as u32) as nat
}

/// The number that a string of decimal digits denotes.
pub open spec fn digits_value(s: Seq<char>) -> nat
    decreases s.len(),
{
    if s.len() == 0 {
        0
    } else {
        digits_value(s.drop_last()) * 10 + digit_value(s.last())
    }
}

pub open spec fn all_digits(s: Seq<char>) -> bool {
    forall|i: int| 0 <= i < s.len() ==> is_digit(#[trigger] s[i])
}

pub proof fn lemma_digit_char(d: nat)
    requires
        d < 10,
    ensures
        is_digit(digit_char(d)),
        digit_value(digit_char(d)) == d,
{
}

/// Reading back a rendered integer gives that integer.
pub proof fn lemma_decimal_value(n: nat)
    ensures
        all_digits(decimal(n)),
        digits_value(decimal(n)) == n,
        decimal(n).len() >= 1,
    decreases n,
{
    lemma_digit_char(n % 10);
    if n >= 10 {
        lemma_decimal_value(n / 10);
        assert(decimal(n).drop_last() =~= decimal(n / 10));
        assert(decimal(n).last() == digit_char(n % 10));
        assert(digits_value(decimal(n)) == (n / 10) * 10 + n % 10);
    } else {
        lemma_digit_char(n);
        assert(decimal(n).drop_last() =~= Seq::<char>::empty());
        assert(digits_value(decimal(n)) == digits_value(Seq::<char>::empty()) * 10 + digit_value(
            digit_char(n),
        ));
    }
    assert forall|i: int| 0 <= i < decimal(n).len() implies is_digit(#[trigger] decimal(n)[i]) by {
        if n >= 10 && i < decimal(n).len() - 1 {
            assert(decimal(n)[i] == decimal(n / 10)[i]);
        }
    }
}

proof fn lemma_value_grows(t: Seq<char>, u: Seq<char>)
    ensures
        digits_value(t) <= digits_value(t + u),
    decreases u.len(),
{
    if u.len() == 0 {
        assert(t + u =~= t);
    } else {
        assert((t + u).drop_last() =~= t + u.drop_last());
        lemma_value_grows(t, u.drop_last());
    }
}

/// Reads the digits `s[lo..hi]` behind the digits `lead`, as one number.
fn parse_digits(s: &Vec<char>, lo: usize, hi: usize, lead: bool) -> (r: Option<u64>)
    requires
        lo <= hi <= s@.len(),
    ensures
        ({
            let t = (if lead { seq!['1'] } else { Seq::<char>::empty() }) + s@.subrange(
                lo as int,
                hi as int,
            );
            r == (if all_digits(s@.subrange(lo as int, hi as int)) && digits_value(t)
                <= u64::MAX {
                Some(digits_value(t) as u64)
            } else {
                None
            })
        }),
{
    let ghost pre = if lead { seq!['1'] } else { Seq::<char>::empty() };
    let mut acc: u64 = if lead { 1 } else { 0 };
    proof {
        assert(pre + s@.subrange(lo as int, lo as int) =~= pre);
        if lead {
            assert(pre.drop_last() =~= Seq::<char>::empty());
            assert(digits_value(pre) == digits_value(Seq::<char>::empty()) * 10 + digit_value('1'));
        } else {
            assert(digits_value(pre) == 0);
        }
    }
    let mut i: usize = lo;
    while i < hi
        invariant
            lo <= i <= hi <= s@.len(),
            pre == (if lead { seq!['1'] } else { Seq::<char>::empty() }),
            all_digits(s@.subrange(lo as int, i as int)),
            acc == digits_value(pre + s@.subrange(lo as int, i as int)),
        decreases hi - i,
    {
        let c = s[i];
        let ghost t = pre + s@.subrange(lo as int, i as int + 1);
        proof {
            assert(t.drop_last() =~= pre + s@.subrange(lo as int, i as int));
            assert(s@.subrange(lo as int, hi as int) =~= s@.subrange(lo as int, i as int + 1)
                + s@.subrange(i as int + 1, hi as int));
            assert(pre + s@.subrange(lo as int, hi as int) =~= t + s@.subrange(
                i as int + 1,
                hi as int,
            ));
            lemma_value_grows(t, s@.subrange(i as int + 1, hi as int));
        }
        if !(c >= '0' && c <= '9') {
            assert(s@.subrange(lo as int, hi as int)[i - lo] == c);
            return None;
        }
        let d = (c as u32 - '0' as u32) as u64;
        if acc > (u64::MAX - d) / 10 {
            return None;
        }
        acc = acc * 10 + d;
        i += 1;
    }
    Some(acc)
}

/// A decimal number kept as written: sign, whole part and, if the text has a
/// point, the digits after it behind a leading `1` (so `0.05` has `frac`
/// `Some(105)` and `5.` has `Some(1)`).
#[derive(Clone, Copy, Debug, PartialEq, Eq, Structural)]
pub struct Number {
    pub negative: bool,
    pub whole: u64,
    pub frac: Option<u64>,
}

impl Number {
    pub open spec fn wf(&self) -> bool {
        match self.frac {
            Some(code) => decimal(code as nat)[0] == '1',
            None => true,
        }
    }
}

/// The text of a number, as it stands in a setting and in generated code.
#[verifier::opaque]
pub open spec fn number_text(n: Number) -> Seq<char> {
    (if n.negative { "-"@ } else { Seq::<char>::empty() }) + decimal(n.whole as nat) + match n.frac {
        Some(code) => "."@ + decimal(code as nat).skip(1),
        None => Seq::<char>::empty(),
    }
}

pub open spec fn sign_len(s: Seq<char>) -> int {
    if s.len() > 0 && (s[0] == '-' || s[0] == '+') { 1 } else { 0 }
}

/// Digits with at most one point among them, and at least one digit.
#[verifier::opaque]
pub open spec fn is_body_syntax(b: Seq<char>) -> bool {
    &&& forall|i: int| 0 <= i < b.len() ==> is_digit(#[trigger] b[i]) || b[i] == '.'
    &&& exists|i: int| 0 <= i < b.len() && is_digit(#[trigger] b[i])
    &&& forall|i: int, j: int|
        0 <= i < b.len() && 0 <= j < b.len() && #[trigger] b[i] == '.' && #[trigger] b[j] == '.'
            ==> i == j
}

/// What a number's text reads as, if it is a number within range.
pub open spec fn parse_number_spec(s: Seq<char>) -> Option<Number> {
    parse_body_spec(sign_len(s) == 1 && s[0] == '-', s.skip(sign_len(s)))
}

/// What a number's body reads as, with the sign already read.
#[verifier::opaque]
pub open spec fn parse_body_spec(negative: bool, b: Seq<char>) -> Option<Number> {
    if !is_body_syntax(b) {
        None
    } else if exists|i: int| 0 <= i < b.len() && b[i] == '.' {
        let k = choose|i: int| 0 <= i < b.len() && b[i] == '.';
        let w = digits_value(b.take(k));
        let f = digits_value(seq!['1'] + b.skip(k + 1));
        if w <= u64::MAX && f <= u64::MAX {
            Some(Number { negative, whole: w as u64, frac: Some(f as u64) })
        } else {
            None
        }
    } else {
        let w = digits_value(b);
        if w <= u64::MAX {
            Some(Number { negative, whole: w as u64, frac: None })
        } else {
            None
        }
    }
}

/// Checks the body `s[lo..hi]` of a number and finds its point.
fn scan_body(s: &Vec<char>, lo: usize, hi: usize) -> (r: Option<Option<usize>>)
    requires
        lo <= hi <= s@.len(),
    ensures
        r is Some <==> is_body_syntax(s@.subrange(lo as int, hi as int)),
        r matches Some(Some(d)) ==> lo <= d < hi && s@[d as int] == '.',
        r matches Some(None) ==> forall|k: int| lo <= k < hi ==> #[trigger] s@[k] != '.',
{
    reveal(is_body_syntax);
    let ghost b = s@.subrange(lo as int, hi as int);
    let mut dot: Option<usize> = None;
    let mut digits: usize = 0;
    let mut i: usize = lo;
    while i < hi
        invariant
            lo <= i <= hi <= s@.len(),
            b == s@.subrange(lo as int, hi as int),
            digits <= i - lo,
            forall|k: int| lo <= k < i ==> is_digit(#[trigger] s@[k]) || s@[k] == '.',
            digits > 0 <==> exists|k: int| lo <= k < i && is_digit(#[trigger] s@[k]),
            match dot {
                Some(d) => lo <= d < i && s@[d as int] == '.' && forall|k: int|
                    lo <= k < i && #[trigger] s@[k] == '.' ==> k == d,
                None => forall|k: int| lo <= k < i ==> #[trigger] s@[k] != '.',
            },
        decreases hi - i,
    {
        let c = s[i];
        if c == '.' {
            if let Some(d) = dot {
                assert(!is_body_syntax(b)) by {
                    reveal(is_body_syntax);
                    assert(b[d - lo] == '.' && b[i - lo] == '.');
                }
                return None;
            }
            dot = Some(i);
        } else if c >= '0' && c <= '9' {
            digits = digits + 1;
        } else {
            assert(!is_body_syntax(b)) by {
                reveal(is_body_syntax);
                assert(b[i - lo] == c);
            }
            return None;
        }
        i += 1;
    }
    if digits == 0 {
        assert forall|k: int| 0 <= k < b.len() implies !is_digit(#[trigger] b[k]) by {
            assert(b[k] == s@[lo + k]);
        }
        return None;
    }
    assert forall|k: int| 0 <= k < b.len() implies is_digit(#[trigger] b[k]) || b[k] == '.' by {
        assert(b[k] == s@[lo + k]);
    }
    let ghost w = choose|k: int| lo <= k < i && is_digit(#[trigger] s@[k]);
    assert(is_digit(b[w - lo]));
    assert forall|x: int, y: int|
        0 <= x < b.len() && 0 <= y < b.len() && #[trigger] b[x] == '.' && #[trigger] b[y]
            == '.' implies x == y by {
        assert(b[x] == s@[lo + x]);
        assert(b[y] == s@[lo + y]);
    }
    Some(dot)
}

/// Reads a number from `s[lo..hi]`.
#[verifier::rlimit(40)]
fn parse_number_in(s: &Vec<char>, lo: usize, hi: usize) -> (r: Option<Number>)
    requires
        lo <= hi <= s@.len(),
    ensures
        r == parse_number_spec(s@.subrange(lo as int, hi as int)),
        r matches Some(n) ==> n.wf(),
{
    let ghost t = s@.subrange(lo as int, hi as int);
    let mut start = lo;
    let mut negative = false;
    if lo < hi && (s[lo] == '-' || s[lo] == '+') {
        negative = s[lo] == '-';
        start = lo + 1;
    }
    let ghost b = t.skip(sign_len(t));
    assert(b =~= s@.subrange(start as int, hi as int));
    assert(negative == (sign_len(t) == 1 && t[0] == '-'));
    let scanned = scan_body(s, start, hi);
    match scanned {
        None => {
            proof {
                reveal(parse_body_spec);
            }
            None
        },
        Some(Some(d)) => {
            let w = parse_digits(s, start, d, false);
            let f = parse_digits(s, d + 1, hi, true);
            proof {
                assert(b[d - start] == '.');
                lemma_body_with_point(negative, b, d - start);
                assert(b.take(d - start) =~= s@.subrange(start as int, d as int));
                assert(b.skip(d - start + 1) =~= s@.subrange(d as int + 1, hi as int));
                assert(Seq::<char>::empty() + b.take(d - start) =~= b.take(d - start));
            }
            match (w, f) {
                (Some(w), Some(f)) => {
                    proof {
                        let fs = seq!['1'] + s@.subrange(d as int + 1, hi as int);
                        lemma_lead_digits(s@.subrange(d as int + 1, hi as int));
                        lemma_leading_one(fs);
                    }
                    Some(Number { negative, whole: w, frac: Some(f) })
                },
                _ => None,
            }
        },
        Some(None) => {
            let w = parse_digits(s, start, hi, false);
            proof {
                assert(Seq::<char>::empty() + b =~= b);
                assert forall|x: int| 0 <= x < b.len() implies b[x] != '.' by {
                    assert(b[x] == s@[start + x]);
                }
                lemma_body_without_point(negative, b);
            }
            match w {
                Some(w) => Some(Number { negative, whole: w, frac: None }),
                None => None,
            }
        },
    }
}

proof fn lemma_body_with_point(negative: bool, b: Seq<char>, k: int)
    requires
        is_body_syntax(b),
        0 <= k < b.len(),
        b[k] == '.',
    ensures
        ({
            let w = digits_value(b.take(k));
            let f = digits_value(seq!['1'] + b.skip(k + 1));
            parse_body_spec(negative, b) == if w <= u64::MAX && f <= u64::MAX {
                Some(Number { negative, whole: w as u64, frac: Some(f as u64) })
            } else {
                None
            }
        }),
        (choose|x: int| 0 <= x < b.len() && b[x] == '.') == k,
        all_digits(b.take(k)),
        all_digits(b.skip(k + 1)),
{
    reveal(is_body_syntax);
    reveal(parse_body_spec);
    let c = choose|x: int| 0 <= x < b.len() && b[x] == '.';
    assert(b[c] == '.' && b[k] == '.');
    assert forall|x: int| 0 <= x < b.take(k).len() implies is_digit(#[trigger] b.take(k)[x]) by {
        assert(b.take(k)[x] == b[x]);
        assert(b[x] != '.' || x == k);
    }
    assert forall|x: int| 0 <= x < b.skip(k + 1).len() implies is_digit(
        #[trigger] b.skip(k + 1)[x],
    ) by {
        assert(b.skip(k + 1)[x] == b[k + 1 + x]);
        assert(b[k + 1 + x] != '.' || k + 1 + x == k);
    }
}

proof fn lemma_body_without_point(negative: bool, b: Seq<char>)
    requires
        is_body_syntax(b),
        forall|x: int| 0 <= x < b.len() ==> b[x] != '.',
    ensures
        all_digits(b),
        parse_body_spec(negative, b) == if digits_value(b) <= u64::MAX {
            Some(Number { negative, whole: digits_value(b) as u64, frac: None })
        } else {
            None
        },
{
    reveal(is_body_syntax);
    reveal(parse_body_spec);
}

proof fn lemma_lead_digits(t: Seq<char>)
    requires
        all_digits(t),
    ensures
        all_digits(seq!['1'] + t),
        (seq!['1'] + t)[0] == '1',
        (seq!['1'] + t).len() >= 1,
{
    let fs = seq!['1'] + t;
    assert forall|x: int| 0 <= x < fs.len() implies is_digit(#[trigger] fs[x]) by {
        if x > 0 {
            assert(fs[x] == t[x - 1]);
        }
    }
}

/// A digit string that starts with `1` renders back with a leading `1`.
proof fn lemma_leading_one(s: Seq<char>)
    requires
        s.len() >= 1,
        s[0] == '1',
        all_digits(s),
    ensures
        decimal(digits_value(s))[0] == '1',
    decreases s.len(),
{
    if s.len() == 1 {
        assert(digits_value(s.drop_last()) == 0);
    } else {
        let t = s.drop_last();
        lemma_leading_one(t);
        lemma_value_at_least_one(t);
        let v = digits_value(s);
        assert(v / 10 == digits_value(t));
        assert(v >= 10);
        lemma_decimal_first(v);
    }
}

proof fn lemma_value_at_least_one(s: Seq<char>)
    requires
        s.len() >= 1,
        s[0] == '1',
        all_digits(s),
    ensures
        digits_value(s) >= 1,
    decreases s.len(),
{
    if s.len() > 1 {
        lemma_value_at_least_one(s.drop_last());
    }
}

proof fn lemma_decimal_first(v: nat)
    requires
        v >= 10,
    ensures
        decimal(v)[0] == decimal(v / 10)[0],
{
    lemma_decimal_value(v / 10);
}

/// Reads a number from its text.
pub fn parse_number(s: &str) -> (r: Option<Number>)
    ensures
        r == parse_number_spec(s@),
        r matches Some(n) ==> n.wf(),
{
    let cs = crate::text::chars_of(s);
    assert(cs@.subrange(0, cs@.len() as int) =~= s@);
    parse_number_in(&cs, 0, cs.len())
}

impl Number {
    /// Appends the number's text to `out`.
    pub fn write_to(&self, out: &mut String)
        ensures
            final(out)@ == old(out)@ + number_text(*self),
    {
        reveal(number_text);
        if self.negative {
            out.append("-");
        }
        push_decimal(out, self.whole);
        match self.frac {
            Some(code) => {
                out.append(".");
                let mut digits = String::new();
                push_decimal(&mut digits, code);
                let cs = crate::text::chars_of(digits.as_str());
                let mut i: usize = 1;
                let ghost start = out@;
                proof {
                    lemma_decimal_value(code as nat);
                }
                while i < cs.len()
                    invariant
                        1 <= i <= cs@.len(),
                        cs@ == decimal(code as nat),
                        out@ == start + cs@.subrange(1, i as int),
                    decreases cs.len() - i,
                {
                    push_char(out, cs[i]);
                    assert(cs@.subrange(1, i as int + 1) =~= cs@.subrange(1, i as int).push(
                        cs@[i as int],
                    ));
                    i += 1;
                }
                assert(cs@.subrange(1, i as int) =~= cs@.skip(1));
            },
            None => {},
        }
        assert(final(out)@ =~= old(out)@ + number_text(*self));
    }

    /// The number's text.
    pub fn to_string(&self) -> (r: String)
        ensures
            r@ == number_text(*self),
    {
        reveal(number_text);
        let mut r = String::new();
        self.write_to(&mut r);
        assert(r@ =~= number_text(*self));
        r
    }
}

/// Reading back a number's text gives that number.
#[verifier::rlimit(60)]
pub proof fn lemma_number_round_trip(n: Number)
    requires
        n.wf(),
    ensures
        parse_number_spec(number_text(n)) == Some(n),
        forall|i: int| 0 <= i < number_text(n).len() ==> #[trigger] number_text(n)[i] != ',' && !is_space(number_text(n)[i]),
        number_text(n).len() >= 1,
{
    reveal(number_text);
    let t = number_text(n);
    let sign = if n.negative { "-"@ } else { Seq::<char>::empty() };
    let w = decimal(n.whole as nat);
    lemma_decimal_value(n.whole as nat);
    reveal_strlit("-");
    reveal_strlit(".");
    let tail = match n.frac {
        Some(code) => "."@ + decimal(code as nat).skip(1),
        None => Seq::<char>::empty(),
    };
    assert(t == sign + w + tail);
    assert(sign_len(t) == sign.len()) by {
        if !n.negative {
            assert(t[0] == w[0]);
            assert(is_digit(w[0]));
        }
    }
    let b = t.skip(sign_len(t));
    assert(b =~= w + tail);
    assert(n.negative == (sign_len(t) == 1 && t[0] == '-'));
    match n.frac {
        Some(code) => {
            lemma_decimal_value(code as nat);
            let d = decimal(code as nat);
            let k = w.len() as int;
            assert(b[k] == '.');
            assert forall|i: int| 0 <= i < b.len() && i != k implies is_digit(#[trigger] b[i]) by {
                if i < k {
                    assert(b[i] == w[i]);
                } else {
                    assert(b[i] == d[i - k]);
                }
            }
            assert(is_body_syntax(b)) by {
                reveal(is_body_syntax);
                assert(is_digit(b[0]));
            }
            lemma_body_with_point(n.negative, b, k);
            assert(b.take(k) =~= w);
            assert(seq!['1'] + b.skip(k + 1) =~= d);
        },
        None => {
            assert(b =~= w);
            assert(is_body_syntax(b)) by {
                reveal(is_body_syntax);
                assert(is_digit(b[0]));
            }
            lemma_body_without_point(n.negative, b);
        },
    }
    assert forall|i: int| 0 <= i < t.len() implies #[trigger] t[i] != ',' && !is_space(t[i]) by {
        if i >= sign.len() {
            assert(t[i] == b[i - sign.len()]);
            assert(is_digit(b[i - sign.len()]) || b[i - sign.len()] == '.') by {
                reveal(is_body_syntax);
            }
        }
    }
}

/// What an integer setting's text reads as: an optional `+`, then decimal
/// digits denoting a value that fits in 32 bits.
pub open spec fn parse_u32_spec(s: Seq<char>) -> Option<u32> {
    let b = if s.len() > 0 && s[0] == '+' { s.skip(1) } else { s };
    if b.len() > 0 && all_digits(b) && digits_value(b) <= u32::MAX {
        Some(digits_value(b) as u32)
    } else {
        None
    }
}

/// Reads an integer setting.
pub fn parse_u32(s: &str) -> (r: Option<u32>)
    ensures
        r == parse_u32_spec(s@),
{
    let cs = crate::text::chars_of(s);
    let start: usize = if cs.len() > 0 && cs[0] == '+' { 1 } else { 0 };
    let ghost b = if s@.len() > 0 && s@[0] == '+' { s@.skip(1) } else { s@ };
    assert(b =~= cs@.subrange(start as int, cs@.len() as int));
    assert(Seq::<char>::empty() + b =~= b);
    if start == cs.len() {
        return None;
    }
    match parse_digits(&cs, start, cs.len(), false) {
        Some(v) => {
            if v <= u32::MAX as u64 {
                Some(v as u32)
            } else {
                None
            }
        },
        None => None,
    }
}

/// Reading back a rendered integer gives that integer.
pub proof fn lemma_u32_round_trip(n: u32)
    ensures
        parse_u32_spec(decimal(n as nat)) == Some(n),
{
    lemma_decimal_value(n as nat);
    let d = decimal(n as nat);
    assert(is_digit(d[0]));
}

/// A color as four numbers: red, green, blue and alpha.
#[derive(Clone, Copy, Debug, PartialEq, Eq, Structural)]
pub struct Color {
    pub red: Number,
    pub green: Number,
    pub blue: Number,
    pub alpha: Number,
}

impl Color {
    pub open spec fn wf(&self) -> bool {
        self.red.wf() && self.green.wf() && self.blue.wf() && self.alpha.wf()
    }
}

/// The text of a color: its four numbers, separated by commas.
pub open spec fn color_text(c: Color) -> Seq<char> {
    number_text(c.red) + ","@ + number_text(c.green) + ","@ + number_text(c.blue) + ","@
        + number_text(c.alpha)
}

pub open spec fn is_space(c: char) -> bool {
    c == ' ' || c == '\t' || c == '\n' || c == '\r'
}

/// How many whitespace characters `s` starts with.
pub open spec fn lead_spaces(s: Seq<char>) -> nat
    decreases s.len(),
{
    if s.len() > 0 && is_space(s[0]) {
        1 + lead_spaces(s.skip(1))
    } else {
        0
    }
}

/// How many whitespace characters `s` ends with.
pub open spec fn trail_spaces(s: Seq<char>) -> nat
    decreases s.len(),
{
    if s.len() > 0 && is_space(s.last()) {
        1 + trail_spaces(s.drop_last())
    } else {
        0
    }
}

proof fn lemma_spaces_bounded(s: Seq<char>)
    ensures
        lead_spaces(s) <= s.len(),
        trail_spaces(s) <= s.len(),
    decreases s.len(),
{
    if s.len() > 0 {
        lemma_spaces_bounded(s.skip(1));
        lemma_spaces_bounded(s.drop_last());
    }
}

/// `s` without leading and trailing whitespace.
pub open spec fn trim(s: Seq<char>) -> Seq<char> {
    let t = s.skip(lead_spaces(s) as int);
    t.take(t.len() - trail_spaces(t))
}

/// The bounds of `s` without its leading and trailing whitespace.
fn trim_bounds(s: &Vec<char>) -> (r: (usize, usize))
    ensures
        r.0 <= r.1 <= s@.len(),
        s@.subrange(r.0 as int, r.1 as int) == trim(s@),
{
    proof {
        lemma_spaces_bounded(s@);
    }
    let len = s.len();
    let mut lo: usize = 0;
    assert(s@.skip(0) =~= s@);
    while lo < len && (s[lo] == ' ' || s[lo] == '\t' || s[lo] == '\n' || s[lo] == '\r')
        invariant
            lo <= len,
            len == s@.len(),
            lead_spaces(s@) == lo + lead_spaces(s@.skip(lo as int)),
        decreases len - lo,
    {
        assert(s@.skip(lo as int).skip(1) =~= s@.skip(lo as int + 1));
        assert(s@.skip(lo as int)[0] == s@[lo as int]);
        lo += 1;
    }
    proof {
        if lo < len {
            assert(s@.skip(lo as int)[0] == s@[lo as int]);
        }
        assert(lead_spaces(s@.skip(lo as int)) == 0);
    }
    let ghost t = s@.skip(lo as int);
    let mut hi: usize = len;
    assert(s@.subrange(lo as int, len as int) =~= t);
    while hi > lo && (s[hi - 1] == ' ' || s[hi - 1] == '\t' || s[hi - 1] == '\n' || s[hi - 1] == '\r')
        invariant
            lo <= hi <= len,
            len == s@.len(),
            t == s@.skip(lo as int),
            trail_spaces(t) == (len - hi) + trail_spaces(s@.subrange(lo as int, hi as int)),
        decreases hi - lo,
    {
        assert(s@.subrange(lo as int, hi as int).drop_last() =~= s@.subrange(lo as int, hi as int - 1));
        assert(s@.subrange(lo as int, hi as int).last() == s@[hi as int - 1]);
        hi -= 1;
    }
    proof {
        if hi > lo {
            assert(s@.subrange(lo as int, hi as int).last() == s@[hi as int - 1]);
        }
        assert(trail_spaces(s@.subrange(lo as int, hi as int)) == 0);
        assert(t.take(t.len() - trail_spaces(t)) =~= s@.subrange(lo as int, hi as int));
    }
    (lo, hi)
}

/// Text without whitespace at its ends is its own trim.
proof fn lemma_trim_plain(s: Seq<char>)
    requires
        s.len() >= 1,
        !is_space(s[0]),
        !is_space(s.last()),
    ensures
        trim(s) == s,
{
    assert(lead_spaces(s) == 0);
    assert(s.skip(0) =~= s);
    assert(trail_spaces(s) == 0);
    assert(s.take(s.len() as int) =~= s);
}

/// The fields of `s` between commas.
pub open spec fn split_commas(s: Seq<char>) -> Seq<Seq<char>>
    decreases s.len(),
{
    if s.len() == 0 {
        seq![Seq::<char>::empty()]
    } else {
        let r = split_commas(s.drop_last());
        if s.last() == ',' {
            r.push(Seq::<char>::empty())
        } else {
            r.update(r.len() - 1, r.last().push(s.last()))
        }
    }
}

/// What a color's text reads as: the first four comma-separated fields,
/// each without surrounding whitespace, as numbers; further fields are
/// ignored.
pub open spec fn parse_color_spec(s: Seq<char>) -> Result<Color, ParseError> {
    let f = split_commas(s);
    if f.len() < 4 {
        Err(ParseError::WrongFieldCount)
    } else {
        match (
            parse_number_spec(trim(f[0])),
            parse_number_spec(trim(f[1])),
            parse_number_spec(trim(f[2])),
            parse_number_spec(trim(f[3])),
        ) {
            (Some(r), Some(g), Some(b), Some(a)) => Ok(
                Color { red: r, green: g, blue: b, alpha: a },
            ),
            _ => Err(ParseError::MalformedNumber),
        }
    }
}

proof fn lemma_split_len(s: Seq<char>)
    ensures
        split_commas(s).len() >= 1,
    decreases s.len(),
{
    if s.len() > 0 {
        lemma_split_len(s.drop_last());
    }
}

/// Splitting at a comma splits the two sides independently.
proof fn lemma_split_join(a: Seq<char>, b: Seq<char>)
    ensures
        split_commas(a + seq![','] + b) == split_commas(a) + split_commas(b),
    decreases b.len(),
{
    let ac = a + seq![','];
    if b.len() == 0 {
        assert(ac + b =~= ac);
        assert(ac.drop_last() =~= a);
        assert(split_commas(a) + split_commas(b) =~= split_commas(a).push(Seq::<char>::empty()));
    } else {
        let bl = b.drop_last();
        assert((ac + b).drop_last() =~= ac + bl);
        assert((ac + b).last() == b.last());
        lemma_split_join(a, bl);
        lemma_split_len(bl);
        lemma_split_len(a);
        if b.last() == ',' {
            assert(split_commas(a) + split_commas(b) =~= (split_commas(a) + split_commas(bl)).push(
                Seq::<char>::empty(),
            ));
        } else {
            let r = split_commas(bl);
            assert(split_commas(a) + split_commas(b) =~= (split_commas(a) + r).update(
                split_commas(a).len() + r.len() - 1,
                r.last().push(b.last()),
            ));
        }
    }
}

/// A text without commas is a single field.
proof fn lemma_split_single(a: Seq<char>)
    requires
        forall|i: int| 0 <= i < a.len() ==> a[i] != ',',
    ensures
        split_commas(a) == seq![a],
    decreases a.len(),
{
    if a.len() > 0 {
        lemma_split_single(a.drop_last());
        assert(a.drop_last().push(a.last()) =~= a);
        assert(seq![a.drop_last()].update(0, a.drop_last().push(a.last())) =~= seq![a]);
    } else {
        assert(a =~= Seq::<char>::empty());
    }
}

/// Splits `s` at its commas.
fn split_fields(s: &Vec<char>) -> (r: Vec<Vec<char>>)
    ensures
        r@.len() == split_commas(s@).len(),
        forall|i: int| 0 <= i < r@.len() ==> #[trigger] r@[i]@ == split_commas(s@)[i],
{
    let mut done: Vec<Vec<char>> = Vec::new();
    let mut cur: Vec<char> = Vec::new();
    let mut i: usize = 0;
    assert(s@.take(0) =~= Seq::<char>::empty());
    while i < s.len()
        invariant
            i <= s@.len(),
            split_commas(s@.take(i as int)).len() == done@.len() + 1,
            forall|k: int| 0 <= k < done@.len() ==> #[trigger] done@[k]@ == split_commas(
                s@.take(i as int),
            )[k],
            cur@ == split_commas(s@.take(i as int)).last(),
        decreases s@.len() - i,
    {
        let c = s[i];
        assert(s@.take(i as int + 1).drop_last() =~= s@.take(i as int));
        if c == ',' {
            done.push(cur);
            cur = Vec::new();
            assert(cur@ =~= Seq::<char>::empty());
        } else {
            cur.push(c);
        }
        i += 1;
    }
    assert(s@.take(i as int) =~= s@);
    done.push(cur);
    done
}

/// Reads a color from its text.
pub fn decode_color(s: &str) -> (r: Result<Color, ParseError>)
    ensures
        r == parse_color_spec(s@),
        r matches Ok(c) ==> c.wf(),
{
    let cs = crate::text::chars_of(s);
    let fields = split_fields(&cs);
    if fields.len() < 4 {
        return Err(ParseError::WrongFieldCount);
    }
    let (l0, h0) = trim_bounds(&fields[0]);
    let (l1, h1) = trim_bounds(&fields[1]);
    let (l2, h2) = trim_bounds(&fields[2]);
    let (l3, h3) = trim_bounds(&fields[3]);
    let r0 = parse_number_in(&fields[0], l0, h0);
    let r1 = parse_number_in(&fields[1], l1, h1);
    let r2 = parse_number_in(&fields[2], l2, h2);
    let r3 = parse_number_in(&fields[3], l3, h3);
    match (r0, r1, r2, r3) {
        (Some(r), Some(g), Some(b), Some(a)) => Ok(Color { red: r, green: g, blue: b, alpha: a }),
        _ => Err(ParseError::MalformedNumber),
    }
}

/// The text of a color: its four numbers, separated by commas.
pub fn encode_color(c: &Color) -> (r: String)
    ensures
        r@ == color_text(*c),
{
    let mut r = String::new();
    c.red.write_to(&mut r);
    r.append(",");
    c.green.write_to(&mut r);
    r.append(",");
    c.blue.write_to(&mut r);
    r.append(",");
    c.alpha.write_to(&mut r);
    assert(r@ =~= color_text(*c));
    r
}

/// Reading back a color's text gives that color.
pub proof fn lemma_color_round_trip(c: Color)
    requires
        c.wf(),
    ensures
        parse_color_spec(color_text(c)) == Ok::<Color, ParseError>(c),
{
    lemma_number_round_trip(c.red);
    lemma_number_round_trip(c.green);
    lemma_number_round_trip(c.blue);
    lemma_number_round_trip(c.alpha);
    let (r, g, b, a) = (number_text(c.red), number_text(c.green), number_text(c.blue), number_text(c.alpha));
    reveal_strlit(",");
    assert(","@ =~= seq![',']);
    lemma_trim_plain(r);
    lemma_trim_plain(g);
    lemma_trim_plain(b);
    lemma_trim_plain(a);
    lemma_split_single(r);
    lemma_split_single(g);
    lemma_split_single(b);
    lemma_split_single(a);
    lemma_split_join(r + seq![','] + g + seq![','] + b, a);
    lemma_split_join(r + seq![','] + g, b);
    lemma_split_join(r, g);
    assert(color_text(c) =~= r + seq![','] + g + seq![','] + b + seq![','] + a);
    let f = split_commas(color_text(c));
    assert(f =~= seq![r, g, b, a]);
}

/// What a flag's text reads as: `1` or `true`, `0` or `false`.
pub open spec fn parse_bool_spec(s: Seq<char>) -> Option<bool> {
    if s == "1"@ || s == "true"@ {
        Some(true)
    } else if s == "0"@ || s == "false"@ {
        Some(false)
    } else {
        None
    }
}

/// The text of a flag.
pub open spec fn bool_text(b: bool) -> Seq<char> {
    if b { "1"@ } else { "0"@ }
}

/// Reads a flag.
pub fn parse_bool(s: &str) -> (r: Option<bool>)
    ensures
        r == parse_bool_spec(s@),
{
    if crate::text::str_eq(s, "1") || crate::text::str_eq(s, "true") {
        Some(true)
    } else if crate::text::str_eq(s, "0") || crate::text::str_eq(s, "false") {
        Some(false)
    } else {
        None
    }
}

/// Reading back a flag's text gives that flag.
pub proof fn lemma_bool_round_trip(b: bool)
    ensures
        parse_bool_spec(bool_text(b)) == Some(b),
{
    reveal_strlit("1");
    reveal_strlit("0");
    reveal_strlit("true");
    reveal_strlit("false");
    assert("1"@.len() == 1 && "0"@.len() == 1 && "true"@.len() == 4 && "false"@.len() == 5);
    assert("1"@[0] != "0"@[0]);
}

} // verus!
