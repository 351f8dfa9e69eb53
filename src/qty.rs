//! Exact resource quantities, held as a whole number of atto-units.
use vstd::prelude::*;

verus! {

/// The suffix a quantity is written with: a power of 10 (nano through exa),
/// the plain count, or a power of 1024 (kibi through exbi).
#[derive(Clone, Copy, Debug, PartialEq, Eq, Structural)]
pub enum Scale {
    Nano,
    Micro,
    Milli,
    Unit,
    Kilo,
    Mega,
    Giga,
    Tera,
    Peta,
    Exa,
    Kibi,
    Mebi,
    Gibi,
    Tebi,
    Pebi,
    Exbi,
}

/// Why a text is not a quantity.
#[derive(Clone, Copy, Debug, PartialEq, Eq, Structural)]
pub enum ParseError {
    /// The numeric literal is empty or holds more than one decimal point.
    Malformed,
    /// The text after the literal is not one of the known suffixes.
    UnknownSuffix,
    /// The amount is finer than an atto-unit or too large for 128 bits of them.
    OutOfRange,
    /// The amount is below zero where only amounts of zero or more are taken.
    Negative,
}

/// A non-negative amount, exact to an atto-unit, with the scale it is shown in.
#[derive(Clone, Copy, Debug)]
pub struct Qty {
    pub attos: u128,
    pub scale: Scale,
}

/// How many atto-units one unit of the scale stands for.
pub open spec fn attos_per(s: Scale) -> nat {
    match s {
        Scale::Nano => 1_000_000_000,
        Scale::Micro => 1_000_000_000_000,
        Scale::Milli => 1_000_000_000_000_000,
        Scale::Unit => 1_000_000_000_000_000_000,
        Scale::Kilo => 1_000_000_000_000_000_000_000,
        Scale::Mega => 1_000_000_000_000_000_000_000_000,
        Scale::Giga => 1_000_000_000_000_000_000_000_000_000,
        Scale::Tera => 1_000_000_000_000_000_000_000_000_000_000,
        Scale::Peta => 1_000_000_000_000_000_000_000_000_000_000_000,
        Scale::Exa => 1_000_000_000_000_000_000_000_000_000_000_000_000,
        Scale::Kibi => 1_024_000_000_000_000_000_000,
        Scale::Mebi => 1_048_576_000_000_000_000_000_000,
        Scale::Gibi => 1_073_741_824_000_000_000_000_000_000,
        Scale::Tebi => 1_099_511_627_776_000_000_000_000_000_000,
        Scale::Pebi => 1_125_899_906_842_624_000_000_000_000_000_000,
        Scale::Exbi => 1_152_921_504_606_846_976_000_000_000_000_000_000,
    }
}

/// The most decimal places a literal may carry with this suffix and still
/// name a whole number of atto-units.
pub open spec fn max_frac(s: Scale) -> nat {
    match s {
        Scale::Nano => 9,
        Scale::Micro => 12,
        Scale::Milli => 15,
        Scale::Unit => 18,
        Scale::Kilo => 21,
        Scale::Mega => 24,
        Scale::Giga => 27,
        Scale::Tera => 30,
        Scale::Peta => 33,
        Scale::Exa => 36,
        _ => 18,
    }
}

pub open spec fn suffix_of(s: Scale) -> Seq<char> {
    match s {
        Scale::Nano => seq!['n'],
        Scale::Micro => seq!['u'],
        Scale::Milli => seq!['m'],
        Scale::Unit => seq![],
        Scale::Kilo => seq!['k'],
        Scale::Mega => seq!['M'],
        Scale::Giga => seq!['G'],
        Scale::Tera => seq!['T'],
        Scale::Peta => seq!['P'],
        Scale::Exa => seq!['E'],
        Scale::Kibi => seq!['K', 'i'],
        Scale::Mebi => seq!['M', 'i'],
        Scale::Gibi => seq!['G', 'i'],
        Scale::Tebi => seq!['T', 'i'],
        Scale::Pebi => seq!['P', 'i'],
        Scale::Exbi => seq!['E', 'i'],
    }
}

pub open spec fn binary_of_letter(c: char) -> Option<Scale> {
    if c == 'K' {
        Some(Scale::Kibi)
    } else if c == 'M' {
        Some(Scale::Mebi)
    } else if c == 'G' {
        Some(Scale::Gibi)
    } else if c == 'T' {
        Some(Scale::Tebi)
    } else if c == 'P' {
        Some(Scale::Pebi)
    } else if c == 'E' {
        Some(Scale::Exbi)
    } else {
        None
    }
}

pub open spec fn decimal_of_letter(c: char) -> Option<Scale> {
    if c == 'n' {
        Some(Scale::Nano)
    } else if c == 'u' {
        Some(Scale::Micro)
    } else if c == 'm' {
        Some(Scale::Milli)
    } else if c == 'k' {
        Some(Scale::Kilo)
    } else if c == 'M' {
        Some(Scale::Mega)
    } else if c == 'G' {
        Some(Scale::Giga)
    } else if c == 'T' {
        Some(Scale::Tera)
    } else if c == 'P' {
        Some(Scale::Peta)
    } else if c == 'E' {
        Some(Scale::Exa)
    } else {
        None
    }
}

/// The scale a suffix names, if any.
pub open spec fn scale_of_suffix(t: Seq<char>) -> Option<Scale> {
    if t.len() == 0 {
        Some(Scale::Unit)
    } else if t.len() == 1 {
        decimal_of_letter(t[0])
    } else if t.len() == 2 && t[1] == 'i' {
        binary_of_letter(t[0])
    } else {
        None
    }
}

pub open spec fn is_digit(c: char) -> bool {
    '0' <= c && c <= '9'
}

pub open spec fn is_num_char(c: char) -> bool {
    is_digit(c) || c == '.'
}

pub open spec fn digit_val(c: char) -> nat {
    (c as int - '0' as int) as nat
}

pub open spec fn all_digits(t: Seq<char>) -> bool {
    forall|i: int| 0 <= i < t.len() ==> is_digit(#[trigger] t[i])
}

/// The number that a string of decimal digits spells.
pub open spec fn digits_value(t: Seq<char>) -> nat
    decreases t.len(),
{
    if t.len() == 0 {
        0
    } else {
        digits_value(t.drop_last()) * 10 + digit_val(t.last())
    }
}

pub open spec fn pow10(n: nat) -> nat
    decreases n,
{
    if n == 0 {
        1
    } else {
        10 * pow10((n - 1) as nat)
    }
}

/// Where the run of digits and points that starts at `i` ends.
pub open spec fn num_end(t: Seq<char>, i: int) -> int
    decreases t.len() - i,
{
    if 0 <= i < t.len() && is_num_char(t[i]) {
        num_end(t, i + 1)
    } else {
        i
    }
}

/// The index of the first point at or after `i`, or the length.
pub open spec fn dot_index(t: Seq<char>, i: int) -> int
    decreases t.len() - i,
{
    if 0 <= i < t.len() && t[i] != '.' {
        dot_index(t, i + 1)
    } else {
        i
    }
}

pub open spec fn sign_len(t: Seq<char>) -> int {
    if t.len() > 0 && (t[0] == '+' || t[0] == '-') {
        1
    } else {
        0
    }
}

/// Whether a text starts with a minus sign.
pub open spec fn is_minus(t: Seq<char>) -> bool {
    t.len() > 0 && t[0] == '-'
}

/// What a text means as an amount, its sign aside: an optional sign, a
/// decimal literal with digits on at least one side of an optional point,
/// then a suffix. On success, the magnitude in atto-units and the scale of
/// the suffix.
pub open spec fn magnitude_spec(t: Seq<char>) -> Result<(nat, Scale), ParseError> {
    let b = sign_len(t);
    let e = num_end(t, b);
    let lit = t.subrange(b, e);
    let d = dot_index(lit, 0);
    let int_part = lit.subrange(0, d);
    let frac = if d < lit.len() {
        lit.subrange(d + 1, lit.len() as int)
    } else {
        Seq::<char>::empty()
    };
    if !all_digits(frac) || int_part.len() + frac.len() == 0 {
        Err(ParseError::Malformed)
    } else {
        match scale_of_suffix(t.subrange(e, t.len() as int)) {
            None => Err(ParseError::UnknownSuffix),
            Some(sc) => {
                let v = digits_value(int_part + frac) * (attos_per(sc) / pow10(frac.len()));
                if frac.len() > max_frac(sc) || v > u128::MAX {
                    Err(ParseError::OutOfRange)
                } else {
                    Ok((v, sc))
                }
            },
        }
    }
}

/// What a text means as a quantity of zero or more: its magnitude, refused
/// where the text is negative and the magnitude is not zero.
pub open spec fn parse_spec(t: Seq<char>) -> Result<(nat, Scale), ParseError> {
    match magnitude_spec(t) {
        Ok((v, sc)) => if is_minus(t) && v > 0 {
            Err(ParseError::Negative)
        } else {
            Ok((v, sc))
        },
        Err(e) => Err(e),
    }
}

proof fn lemma_digits_push(t: Seq<char>, c: char)
    ensures
        digits_value(t.push(c)) == digits_value(t) * 10 + digit_val(c),
{
    assert(t.push(c).drop_last() =~= t);
}

proof fn lemma_digits_prefix_le(a: Seq<char>, b: Seq<char>)
    ensures
        digits_value(a) <= digits_value(a + b),
    decreases b.len(),
{
    if b.len() > 0 {
        lemma_digits_prefix_le(a, b.drop_last());
        assert((a + b).drop_last() =~= a + b.drop_last());
    }
}

proof fn lemma_pow10_mono(a: nat, b: nat)
    requires
        a <= b,
    ensures
        pow10(a) <= pow10(b),
    decreases b,
{
    if a < b {
        lemma_pow10_mono(a, (b - 1) as nat);
    }
}

proof fn lemma_pow10_at_max_frac(sc: Scale)
    ensures
        pow10(max_frac(sc)) <= attos_per(sc),
{
    reveal_with_fuel(pow10, 4);
    assert(pow10(3) == 1_000);
    assert(pow10(6) == 1_000_000) by {
        reveal_with_fuel(pow10, 4);
    }
    assert(pow10(9) == 1_000_000_000) by {
        reveal_with_fuel(pow10, 4);
    }
    assert(pow10(12) == 1_000_000_000_000) by {
        reveal_with_fuel(pow10, 4);
    }
    assert(pow10(15) == 1_000_000_000_000_000) by {
        reveal_with_fuel(pow10, 4);
    }
    assert(pow10(18) == 1_000_000_000_000_000_000) by {
        reveal_with_fuel(pow10, 4);
    }
    assert(pow10(21) == 1_000_000_000_000_000_000_000) by {
        reveal_with_fuel(pow10, 4);
    }
    assert(pow10(24) == 1_000_000_000_000_000_000_000_000) by {
        reveal_with_fuel(pow10, 4);
    }
    assert(pow10(27) == 1_000_000_000_000_000_000_000_000_000) by {
        reveal_with_fuel(pow10, 4);
    }
    assert(pow10(30) == 1_000_000_000_000_000_000_000_000_000_000) by {
        reveal_with_fuel(pow10, 4);
    }
    assert(pow10(33) == 1_000_000_000_000_000_000_000_000_000_000_000) by {
        reveal_with_fuel(pow10, 4);
    }
    assert(pow10(36) == 1_000_000_000_000_000_000_000_000_000_000_000_000) by {
        reveal_with_fuel(pow10, 4);
    }
}

proof fn lemma_unit_positive(sc: Scale, f: nat)
    requires
        f <= max_frac(sc),
    ensures
        attos_per(sc) / pow10(f) >= 1,
{
    lemma_pow10_mono(f, max_frac(sc));
    lemma_pow10_at_max_frac(sc);
    lemma_pow10_pos(f);
    vstd::arithmetic::div_mod::lemma_div_is_ordered(pow10(f) as int, attos_per(sc) as int, pow10(f) as int);
    vstd::arithmetic::div_mod::lemma_div_basics(pow10(f) as int);
}

fn is_num_char_exec(c: char) -> (r: bool)
    ensures
        r == is_num_char(c),
{
    ('0' <= c && c <= '9') || c == '.'
}

fn decimal_letter(c: char) -> (r: Option<Scale>)
    ensures
        r == decimal_of_letter(c),
{
    if c == 'n' {
        Some(Scale::Nano)
    } else if c == 'u' {
        Some(Scale::Micro)
    } else if c == 'm' {
        Some(Scale::Milli)
    } else if c == 'k' {
        Some(Scale::Kilo)
    } else if c == 'M' {
        Some(Scale::Mega)
    } else if c == 'G' {
        Some(Scale::Giga)
    } else if c == 'T' {
        Some(Scale::Tera)
    } else if c == 'P' {
        Some(Scale::Peta)
    } else if c == 'E' {
        Some(Scale::Exa)
    } else {
        None
    }
}

fn binary_letter(c: char) -> (r: Option<Scale>)
    ensures
        r == binary_of_letter(c),
{
    if c == 'K' {
        Some(Scale::Kibi)
    } else if c == 'M' {
        Some(Scale::Mebi)
    } else if c == 'G' {
        Some(Scale::Gibi)
    } else if c == 'T' {
        Some(Scale::Tebi)
    } else if c == 'P' {
        Some(Scale::Pebi)
    } else if c == 'E' {
        Some(Scale::Exbi)
    } else {
        None
    }
}

/// The scale named by the characters of `s` from `from` to the end.
fn suffix_scale(s: &str, n: usize, from: usize) -> (r: Option<Scale>)
    requires
        n == s@.len(),
        from <= n,
    ensures
        r == scale_of_suffix(s@.subrange(from as int, n as int)),
{
    if from == n {
        Some(Scale::Unit)
    } else if n - from == 1 {
        decimal_letter(s.get_char(from))
    } else if n - from == 2 {
        let c1 = s.get_char(from + 1);
        if c1 == 'i' {
            binary_letter(s.get_char(from))
        } else {
            None
        }
    } else {
        None
    }
}

impl Scale {
    /// How many atto-units one unit of this scale stands for.
    pub fn attos(&self) -> (r: u128)
        ensures
            r == attos_per(*self),
    {
        match self {
            Scale::Nano => 1_000_000_000,
            Scale::Micro => 1_000_000_000_000,
            Scale::Milli => 1_000_000_000_000_000,
            Scale::Unit => 1_000_000_000_000_000_000,
            Scale::Kilo => 1_000_000_000_000_000_000_000,
            Scale::Mega => 1_000_000_000_000_000_000_000_000,
            Scale::Giga => 1_000_000_000_000_000_000_000_000_000,
            Scale::Tera => 1_000_000_000_000_000_000_000_000_000_000,
            Scale::Peta => 1_000_000_000_000_000_000_000_000_000_000_000,
            Scale::Exa => 1_000_000_000_000_000_000_000_000_000_000_000_000,
            Scale::Kibi => 1_024_000_000_000_000_000_000,
            Scale::Mebi => 1_048_576_000_000_000_000_000_000,
            Scale::Gibi => 1_073_741_824_000_000_000_000_000_000,
            Scale::Tebi => 1_099_511_627_776_000_000_000_000_000_000,
            Scale::Pebi => 1_125_899_906_842_624_000_000_000_000_000_000,
            Scale::Exbi => 1_152_921_504_606_846_976_000_000_000_000_000_000,
        }
    }

    fn max_frac_exec(&self) -> (r: usize)
        ensures
            r == max_frac(*self),
    {
        match self {
            Scale::Nano => 9,
            Scale::Micro => 12,
            Scale::Milli => 15,
            Scale::Unit => 18,
            Scale::Kilo => 21,
            Scale::Mega => 24,
            Scale::Giga => 27,
            Scale::Tera => 30,
            Scale::Peta => 33,
            Scale::Exa => 36,
            _ => 18,
        }
    }
}

proof fn lemma_pow10_pos(n: nat)
    ensures
        pow10(n) > 0,
    decreases n,
{
    if n > 0 {
        lemma_pow10_pos((n - 1) as nat);
    }
}

/// Continues the number `acc`, spelled by `pre`, with the digits of `s`
/// from `from` to `to`; `None` when the result does not fit.
fn accumulate(s: &str, from: usize, to: usize, acc: u128, Ghost(pre): Ghost<Seq<char>>) -> (r: Option<u128>)
    requires
        from <= to <= s@.len(),
        acc == digits_value(pre),
        forall|j: int| from <= j < to ==> is_digit(#[trigger] s@[j]),
    ensures
        match r {
            Some(v) => v == digits_value(pre + s@.subrange(from as int, to as int)),
            None => digits_value(pre + s@.subrange(from as int, to as int)) > u128::MAX,
        },
{
    let ghost t = s@;
    let ghost full = pre + t.subrange(from as int, to as int);
    let mut acc = acc;
    let mut i: usize = from;
    while i < to
        invariant
            from <= i <= to <= t.len(),
            t == s@,
            forall|j: int| from <= j < to ==> is_digit(#[trigger] t[j]),
            full == pre + t.subrange(from as int, to as int),
            acc == digits_value(pre + t.subrange(from as int, i as int)),
        decreases to - i,
    {
        let c = s.get_char(i);
        let ghost cur = pre + t.subrange(from as int, i as int);
        proof {
            assert(pre + t.subrange(from as int, i + 1) =~= cur.push(c));
            lemma_digits_push(cur, c);
            assert(is_digit(t[i as int]));
        }
        let dv = (c as u32 - '0' as u32) as u128;
        if acc > (u128::MAX - dv) / 10 {
            proof {
                let rest = t.subrange(i + 1, to as int);
                lemma_digits_prefix_le(cur.push(c), rest);
                assert(cur.push(c) + rest =~= full);
            }
            return None;
        }
        acc = acc * 10 + dv;
        i = i + 1;
    }
    Some(acc)
}

/// Where the sign, the literal and its first point end in `s`.
fn scan_literal(s: &str, n: usize) -> (r: (usize, usize, usize))
    requires
        n == s@.len(),
    ensures
        r.0 == sign_len(s@),
        r.0 <= r.2 <= r.1 <= n,
        r.1 == num_end(s@, r.0 as int),
        r.2 - r.0 == dot_index(s@.subrange(r.0 as int, r.1 as int), 0),
        forall|j: int| r.0 <= j < r.1 ==> is_num_char(#[trigger] s@[j]),
        forall|j: int| r.0 <= j < r.2 ==> #[trigger] s@[j] != '.',
{
    let ghost t = s@;
    let mut b: usize = 0;
    if n > 0 {
        let c0 = s.get_char(0);
        if c0 == '+' || c0 == '-' {
            b = 1;
        }
    }
    let mut e: usize = b;
    while e < n && is_num_char_exec(s.get_char(e))
        invariant
            b <= e <= n,
            n == t.len(),
            t == s@,
            num_end(t, b as int) == num_end(t, e as int),
            forall|j: int| b <= j < e ==> is_num_char(#[trigger] t[j]),
        decreases n - e,
    {
        e = e + 1;
    }
    let ghost lit = t.subrange(b as int, e as int);
    let mut d: usize = b;
    while d < e && s.get_char(d) != '.'
        invariant
            b <= d <= e <= n,
            n == t.len(),
            t == s@,
            lit == t.subrange(b as int, e as int),
            dot_index(lit, 0) == dot_index(lit, d - b),
            forall|j: int| b <= j < d ==> #[trigger] t[j] != '.',
        decreases e - d,
    {
        assert(lit[d - b] == t[d as int]);
        d = d + 1;
    }
    assert(dot_index(lit, 0) == d - b) by {
        if d < e {
            assert(lit[d - b] == t[d as int]);
        }
    }
    (b, e, d)
}

/// `attos_per(sc) / 10^f`: the atto-units that one step of the last of `f`
/// decimal places stands for.
fn unit_of(sc: Scale, f: usize) -> (r: u128)
    ensures
        r == attos_per(sc) / pow10(f as nat),
{
    let mut unit: u128 = sc.attos();
    let mut j: usize = 0;
    assert(pow10(0) == 1);
    while j < f
        invariant
            j <= f,
            unit == attos_per(sc) / pow10(j as nat),
        decreases f - j,
    {
        proof {
            lemma_pow10_pos(j as nat);
            vstd::arithmetic::div_mod::lemma_div_denominator(attos_per(sc) as int, pow10(j as nat) as int, 10);
            assert(pow10((j + 1) as nat) == 10 * pow10(j as nat));
            assert(pow10(j as nat) * 10 == 10 * pow10(j as nat)) by (nonlinear_arith);
        }
        unit = unit / 10;
        j = j + 1;
    }
    unit
}

impl Qty {
    /// Reads the magnitude of an amount such as `1500m`, `-0.25`, `+4` or `1Gi`.
    fn parse_magnitude(s: &str) -> (r: Result<Qty, ParseError>)
        ensures
            match magnitude_spec(s@) {
                Ok((v, sc)) => r == Ok::<Qty, ParseError>(Qty { attos: v as u128, scale: sc }),
                Err(e) => r == Err::<Qty, ParseError>(e),
            },
    {
        let ghost t = s@;
        let n = s.unicode_len();
        let (b, e, d) = scan_literal(s, n);
        let ghost lit = t.subrange(b as int, e as int);
        let frac_start: usize = if d < e { d + 1 } else { e };
        let ghost int_part = lit.subrange(0, d - b);
        let ghost frac = if d < e { lit.subrange(d - b + 1, lit.len() as int) } else { Seq::<char>::empty() };
        assert(frac =~= t.subrange(frac_start as int, e as int));
        assert(int_part =~= t.subrange(b as int, d as int));
        // the fraction holds no second point
        let mut k: usize = frac_start;
        while k < e
            invariant
                frac_start <= k <= e <= n,
                b <= frac_start,
                b == sign_len(t),
                e == num_end(t, b as int),
                lit == t.subrange(b as int, e as int),
                b <= d <= e,
                d - b == dot_index(lit, 0),
                frac == (if d < e { lit.subrange(d - b + 1, lit.len() as int) } else { Seq::<char>::empty() }),
                n == t.len(),
                t == s@,
                frac =~= t.subrange(frac_start as int, e as int),
                forall|j: int| b <= j < e ==> is_num_char(#[trigger] t[j]),
                forall|j: int| frac_start <= j < k ==> is_digit(#[trigger] t[j]),
            decreases e - k,
        {
            let c = s.get_char(k);
            if c == '.' {
                assert(frac[k - frac_start] == t[k as int]);
                assert(!is_digit(frac[k - frac_start]));
                assert(!all_digits(frac));
                return Err(ParseError::Malformed);
            }
            assert(is_num_char(t[k as int]));
            k = k + 1;
        }
        assert(all_digits(frac)) by {
            assert forall|i: int| 0 <= i < frac.len() implies is_digit(#[trigger] frac[i]) by {
                assert(frac[i] == t[frac_start + i]);
            }
        }
        let n_frac: usize = e - frac_start;
        if (d - b) + n_frac == 0 {
            return Err(ParseError::Malformed);
        }
        let sc = match suffix_scale(s, n, e) {
            None => {
                return Err(ParseError::UnknownSuffix);
            },
            Some(sc) => sc,
        };
        if n_frac > sc.max_frac_exec() {
            return Err(ParseError::OutOfRange);
        }
        let unit = unit_of(sc, n_frac);
        proof {
            lemma_unit_positive(sc, n_frac as nat);
            assert forall|j: int| b <= j < d implies is_digit(#[trigger] t[j]) by {
                assert(is_num_char(t[j]));
            }
        }
        let ghost all = int_part + frac;
        assert(Seq::<char>::empty() + int_part =~= int_part);
        assert(digits_value(Seq::<char>::empty()) == 0);
        let acc = match accumulate(s, b, d, 0, Ghost(Seq::empty())) {
            None => {
                proof {
                    lemma_digits_prefix_le(int_part, frac);
                    assert(digits_value(all) * unit >= digits_value(all)) by (nonlinear_arith)
                        requires unit >= 1;
                }
                return Err(ParseError::OutOfRange);
            },
            Some(a) => a,
        };
        let acc = match accumulate(s, frac_start, e, acc, Ghost(int_part)) {
            None => {
                proof {
                    assert(digits_value(all) * unit >= digits_value(all)) by (nonlinear_arith)
                        requires unit >= 1;
                }
                return Err(ParseError::OutOfRange);
            },
            Some(a) => a,
        };
        match acc.checked_mul(unit) {
            None => Err(ParseError::OutOfRange),
            Some(v) => Ok(Qty { attos: v, scale: sc }),
        }
    }

    /// Reads an amount with its sign: whether the text starts with a minus,
    /// and the magnitude.
    pub fn parse_signed(s: &str) -> (r: Result<(bool, Qty), ParseError>)
        ensures
            match magnitude_spec(s@) {
                Ok((v, sc)) => r == Ok::<(bool, Qty), ParseError>((is_minus(s@), Qty { attos: v as u128, scale: sc })),
                Err(e) => r == Err::<(bool, Qty), ParseError>(e),
            },
    {
        let q = match Qty::parse_magnitude(s) {
            Err(e) => {
                return Err(e);
            },
            Ok(q) => q,
        };
        let minus = s.unicode_len() > 0 && s.get_char(0) == '-';
        Ok((minus, q))
    }

    /// Reads a quantity of zero or more, such as `1500m`, `0.25`, `+4`, `-0`
    /// or `1Gi`.
    pub fn from_str(s: &str) -> (r: Result<Qty, ParseError>)
        ensures
            match parse_spec(s@) {
                Ok((v, sc)) => r == Ok::<Qty, ParseError>(Qty { attos: v as u128, scale: sc }),
                Err(e) => r == Err::<Qty, ParseError>(e),
            },
    {
        match Qty::parse_signed(s) {
            Err(e) => Err(e),
            Ok((minus, q)) => if minus && q.attos > 0 {
                Err(ParseError::Negative)
            } else {
                Ok(q)
            },
        }
    }
}

pub open spec fn digit_char(d: nat) -> char {
    if d == 0 {
        '0'
    } else if d == 1 {
        '1'
    } else if d == 2 {
        '2'
    } else if d == 3 {
        '3'
    } else if d == 4 {
        '4'
    } else if d == 5 {
        '5'
    } else if d == 6 {
        '6'
    } else if d == 7 {
        '7'
    } else if d == 8 {
        '8'
    } else {
        '9'
    }
}

/// The decimal digits of `n`, most significant first, without leading zeros.
pub open spec fn digits_of(n: nat) -> Seq<char>
    decreases n,
{
    if n < 10 {
        seq![digit_char(n)]
    } else {
        digits_of(n / 10).push(digit_char(n % 10))
    }
}

/// The scale a quantity is written in: its own when the amount is a whole
/// number of its units, else the coarsest of unit, milli, micro and nano that is,
/// else nano with a fraction.
pub open spec fn text_scale(q: Qty) -> Scale {
    if q.attos as nat % attos_per(q.scale) == 0 {
        q.scale
    } else if q.attos as nat % 1_000_000_000_000_000_000 == 0 {
        Scale::Unit
    } else if q.attos as nat % 1_000_000_000_000_000 == 0 {
        Scale::Milli
    } else if q.attos as nat % 1_000_000_000_000 == 0 {
        Scale::Micro
    } else {
        Scale::Nano
    }
}

/// The `w` last decimal digits of `n`, zeros in front where it is shorter.
pub open spec fn fixed_digits(n: nat, w: nat) -> Seq<char>
    decreases w,
{
    if w == 0 {
        Seq::empty()
    } else {
        fixed_digits(n / 10, (w - 1) as nat).push(digit_char(n % 10))
    }
}

/// The exact text of a quantity: a whole number and a suffix, or, below the
/// nano-unit, nano-units with nine decimal places.
pub open spec fn text_of(q: Qty) -> Seq<char> {
    if q.attos as nat % 1_000_000_000 == 0 {
        digits_of(q.attos as nat / attos_per(text_scale(q))) + suffix_of(text_scale(q))
    } else {
        digits_of(q.attos as nat / 1_000_000_000) + seq!['.'] + fixed_digits(q.attos as nat % 1_000_000_000, 9)
            + seq!['n']
    }
}

pub open spec fn finer(a: Scale, b: Scale) -> Scale {
    if attos_per(a) <= attos_per(b) {
        a
    } else {
        b
    }
}

pub open spec fn plus_spec(a: Qty, b: Qty) -> Qty {
    Qty { attos: (a.attos + b.attos) as u128, scale: finer(a.scale, b.scale) }
}

pub open spec fn saturating_sub_spec(a: Qty, b: Qty) -> Qty {
    Qty { attos: if a.attos > b.attos { (a.attos - b.attos) as u128 } else { 0 }, scale: a.scale }
}

pub open spec fn max_spec(a: Qty, b: Qty) -> Qty {
    if b.attos > a.attos {
        b
    } else {
        a
    }
}

proof fn lemma_digits_of(n: nat)
    ensures
        digits_of(n).len() >= 1,
        all_digits(digits_of(n)),
        digits_value(digits_of(n)) == n,
    decreases n,
{
    if n >= 10 {
        lemma_digits_of(n / 10);
        let p = digits_of(n / 10);
        lemma_digits_push(p, digit_char(n % 10));
        lemma_digit_char((n % 10) as nat);
        assert(n == (n / 10) * 10 + n % 10);
        assert forall|i: int| 0 <= i < digits_of(n).len() implies is_digit(#[trigger] digits_of(n)[i]) by {
            if i < p.len() {
                assert(digits_of(n)[i] == p[i]);
            }
        }
    } else {
        lemma_digit_char(n);
        assert(digits_of(n).drop_last() =~= Seq::<char>::empty());
        assert(digits_value(Seq::<char>::empty()) == 0);
    }
}

proof fn lemma_digit_char(d: nat)
    requires
        d < 10,
    ensures
        is_digit(digit_char(d)),
        digit_val(digit_char(d)) == d,
{
}

proof fn lemma_num_end_run(t: Seq<char>, i: int, k: int)
    requires
        0 <= i <= k <= t.len(),
        forall|j: int| i <= j < k ==> is_num_char(#[trigger] t[j]),
        k == t.len() || !is_num_char(t[k]),
    ensures
        num_end(t, i) == k,
    decreases k - i,
{
    if i < k {
        lemma_num_end_run(t, i + 1, k);
    }
}

proof fn lemma_dot_index_run(t: Seq<char>, i: int, k: int)
    requires
        0 <= i <= k <= t.len(),
        forall|j: int| i <= j < k ==> #[trigger] t[j] != '.',
        k == t.len() || t[k] == '.',
    ensures
        dot_index(t, i) == k,
    decreases k - i,
{
    if i < k {
        lemma_dot_index_run(t, i + 1, k);
    }
}

proof fn lemma_nano_divides_scales(sc: Scale)
    ensures
        attos_per(sc) % 1_000_000_000 == 0,
        attos_per(sc) > 0,
{
}

proof fn lemma_multiple_of_nano(a: nat, d: nat)
    requires
        d > 0,
        d % 1_000_000_000 == 0,
        a % d == 0,
    ensures
        a % 1_000_000_000 == 0,
{
    vstd::arithmetic::div_mod::lemma_fundamental_div_mod(a as int, d as int);
    vstd::arithmetic::div_mod::lemma_fundamental_div_mod(d as int, 1_000_000_000);
    let k = (d / 1_000_000_000) * (a / d);
    assert(a == k * 1_000_000_000) by (nonlinear_arith)
        requires
            a == d * (a / d),
            d == 1_000_000_000 * (d / 1_000_000_000),
            k == (d / 1_000_000_000) * (a / d),
    ;
    vstd::arithmetic::div_mod::lemma_mod_multiples_basic(k as int, 1_000_000_000);
}

proof fn lemma_fixed_digits(n: nat, w: nat)
    ensures
        fixed_digits(n, w).len() == w,
        all_digits(fixed_digits(n, w)),
        digits_value(fixed_digits(n, w)) == n % pow10(w),
    decreases w,
{
    if w == 0 {
        assert(n % 1 == 0);
    } else {
        let p = fixed_digits(n / 10, (w - 1) as nat);
        lemma_fixed_digits(n / 10, (w - 1) as nat);
        lemma_digit_char(n % 10);
        lemma_digits_push(p, digit_char(n % 10));
        lemma_pow10_pos((w - 1) as nat);
        vstd::arithmetic::div_mod::lemma_mod_breakdown(n as int, 10, pow10((w - 1) as nat) as int);
        assert forall|i: int| 0 <= i < fixed_digits(n, w).len() implies is_digit(#[trigger] fixed_digits(n, w)[i]) by {
            if i < p.len() {
                assert(fixed_digits(n, w)[i] == p[i]);
            }
        }
    }
}

proof fn lemma_digits_concat(a: Seq<char>, b: Seq<char>)
    ensures
        digits_value(a + b) == digits_value(a) * pow10(b.len()) + digits_value(b),
    decreases b.len(),
{
    if b.len() == 0 {
        assert(a + b =~= a);
        assert(pow10(0) == 1);
        assert(digits_value(b) == 0);
    } else {
        let b0 = b.drop_last();
        lemma_digits_concat(a, b0);
        assert((a + b).drop_last() =~= a + b0);
        assert((a + b).last() == b.last());
        let x = digits_value(a);
        let p = pow10(b0.len());
        assert(pow10(b.len()) == 10 * p);
        assert(digits_value(a + b) == digits_value(a + b0) * 10 + digit_val(b.last()));
        assert(digits_value(b) == digits_value(b0) * 10 + digit_val(b.last()));
        assert((x * p + digits_value(b0)) * 10 + digit_val(b.last()) == x * (10 * p) + (digits_value(b0) * 10
            + digit_val(b.last()))) by (nonlinear_arith);
    }
}

#[verifier::rlimit(30)]
proof fn lemma_parse_fraction_text(q: Qty)
    requires
        q.attos as nat % 1_000_000_000 != 0,
    ensures
        text_scale(q) == Scale::Nano,
        parse_spec(text_of(q)) == Ok::<(nat, Scale), ParseError>((q.attos as nat, Scale::Nano)),
{
    let m = q.attos as nat;
    lemma_nano_divides_scales(q.scale);
    if m % attos_per(q.scale) == 0 {
        lemma_multiple_of_nano(m, attos_per(q.scale));
    }
    if m % 1_000_000_000_000_000_000 == 0 {
        lemma_multiple_of_nano(m, 1_000_000_000_000_000_000);
    }
    if m % 1_000_000_000_000_000 == 0 {
        lemma_multiple_of_nano(m, 1_000_000_000_000_000);
    }
    if m % 1_000_000_000_000 == 0 {
        lemma_multiple_of_nano(m, 1_000_000_000_000);
    }
    let ip = m / 1_000_000_000;
    let fr = m % 1_000_000_000;
    let ds = digits_of(ip);
    let fd = fixed_digits(fr, 9);
    let t = ds + seq!['.'] + fd + seq!['n'];
    assert(t == text_of(q));
    lemma_digits_of(ip);
    lemma_fixed_digits(fr, 9);
    lemma_pow10_at_max_frac(Scale::Nano);
    assert(pow10(9) == 1_000_000_000) by {
        reveal_with_fuel(pow10, 10);
    }
    let l = ds.len() as int;
    assert forall|j: int| 0 <= j < l + 10 implies is_num_char(#[trigger] t[j]) by {
        if j < l {
            assert(t[j] == ds[j]);
            assert(is_digit(ds[j]));
        } else if j > l {
            assert(t[j] == fd[j - l - 1]);
            assert(is_digit(fd[j - l - 1]));
        }
    }
    assert(t[l + 10] == 'n');
    assert(t.len() == l + 11);
    assert(is_digit(ds[0]));
    assert(t[0] == ds[0]);
    assert(sign_len(t) == 0);
    assert(!is_minus(t));
    lemma_num_end_run(t, 0, l + 10);
    let lit = t.subrange(0, l + 10);
    assert(lit =~= ds + seq!['.'] + fd);
    assert forall|j: int| 0 <= j < l implies #[trigger] lit[j] != '.' by {
        assert(lit[j] == ds[j]);
        assert(is_digit(ds[j]));
    }
    assert(lit[l] == '.');
    lemma_dot_index_run(lit, 0, l);
    assert(lit.subrange(0, l) =~= ds);
    assert(lit.subrange(l + 1, lit.len() as int) =~= fd);
    assert(t.subrange(l + 10, t.len() as int) =~= seq!['n']);
    lemma_digits_concat(ds, fd);
    assert(fr < 1_000_000_000);
    assert(fr % 1_000_000_000 == fr) by {
        vstd::arithmetic::div_mod::lemma_small_mod(fr, 1_000_000_000);
    }
    assert(ip * 1_000_000_000 + fr == m) by {
        vstd::arithmetic::div_mod::lemma_fundamental_div_mod(m as int, 1_000_000_000);
    }
    vstd::arithmetic::div_mod::lemma_div_basics(1_000_000_000);
    assert(scale_of_suffix(seq!['n']) == Some(Scale::Nano));
    assert(digits_value(lit.subrange(0, l) + lit.subrange(l + 1, lit.len() as int)) == m);
    assert(attos_per(Scale::Nano) / pow10(9) == 1);
    assert(num_end(t, sign_len(t)) == l + 10);
    assert(dot_index(lit, 0) == l);
    assert(all_digits(lit.subrange(l + 1, lit.len() as int)));
    assert(scale_of_suffix(t.subrange(l + 10, t.len() as int)) == Some(Scale::Nano));
    assert(lit.subrange(l + 1, lit.len() as int).len() <= max_frac(Scale::Nano));
    let frac = lit.subrange(l + 1, lit.len() as int);
    assert(frac.len() == 9);
    assert(frac =~= fd);
    assert(lit.subrange(0, l) + frac =~= ds + fd);
    assert(digits_value(ds) == ip);
    assert(digits_value(fd) == fr);
    assert(digits_value(ds + fd) == ip * pow10(9) + fr);
    assert(digits_value(ds + fd) == m);
    assert(pow10(frac.len()) == 1_000_000_000);
    assert(attos_per(Scale::Nano) / pow10(frac.len()) == 1);
    let v = digits_value(lit.subrange(0, l) + frac) * (attos_per(Scale::Nano) / pow10(frac.len()));
    assert(v == m);
    assert(v <= u128::MAX);
    assert(magnitude_spec(t) == Ok::<(nat, Scale), ParseError>((m, Scale::Nano)));
}

/// Reading the text of a quantity gives back its amount, in the scale it was
/// written in.
pub proof fn lemma_parse_text(q: Qty)
    ensures
        parse_spec(text_of(q)) == Ok::<(nat, Scale), ParseError>((q.attos as nat, text_scale(q))),
{
    if q.attos as nat % 1_000_000_000 == 0 {
        lemma_parse_whole_text(q);
    } else {
        lemma_parse_fraction_text(q);
    }
}

proof fn lemma_parse_whole_text(q: Qty)
    requires
        q.attos as nat % 1_000_000_000 == 0,
    ensures
        parse_spec(text_of(q)) == Ok::<(nat, Scale), ParseError>((q.attos as nat, text_scale(q))),
{
    lemma_nano_divides_scales(q.scale);
    let sc = text_scale(q);
    let m = q.attos as nat / attos_per(sc);
    let ds = digits_of(m);
    let suf = suffix_of(sc);
    let t = ds + suf;
    lemma_digits_of(m);
    assert(q.attos as nat % attos_per(sc) == 0);
    assert(m * attos_per(sc) == q.attos) by {
        vstd::arithmetic::div_mod::lemma_fundamental_div_mod(q.attos as int, attos_per(sc) as int);
    }
    assert(is_digit(ds[0]));
    assert(t[0] == ds[0]);
    assert(sign_len(t) == 0);
    assert forall|j: int| 0 <= j < ds.len() implies is_num_char(#[trigger] t[j]) by {
        assert(t[j] == ds[j]);
        assert(is_digit(ds[j]));
    }
    assert(suf.len() == 0 || !is_num_char(suf[0]));
    if suf.len() > 0 {
        assert(t[ds.len() as int] == suf[0]);
    }
    lemma_num_end_run(t, 0, ds.len() as int);
    let lit = t.subrange(0, ds.len() as int);
    assert(lit =~= ds);
    assert forall|j: int| 0 <= j < lit.len() implies #[trigger] lit[j] != '.' by {
        assert(is_digit(ds[j]));
    }
    lemma_dot_index_run(lit, 0, lit.len() as int);
    assert(lit.subrange(0, lit.len() as int) =~= ds);
    assert(ds + Seq::<char>::empty() =~= ds);
    assert(t.subrange(ds.len() as int, t.len() as int) =~= suf);
    assert(scale_of_suffix(suf) == Some(sc));
    assert(pow10(0) == 1);
    vstd::arithmetic::div_mod::lemma_div_basics(attos_per(sc) as int);
}

/// Formatting then reading a quantity that was read from text gives back the
/// same amount.
pub proof fn lemma_format_of_parse(t: Seq<char>)
    requires
        parse_spec(t) is Ok,
    ensures
        ({
            let (v, sc) = parse_spec(t)->Ok_0;
            let q = Qty { attos: v as u128, scale: sc };
            parse_spec(text_of(q)) is Ok && parse_spec(text_of(q))->Ok_0.0 == v
        }),
{
    let (v, sc) = parse_spec(t)->Ok_0;
    lemma_parse_text(Qty { attos: v as u128, scale: sc });
}

/// Adding quantities is commutative and associative, exactly.
pub proof fn lemma_plus_commutative_associative(a: Qty, b: Qty, c: Qty)
    requires
        a.attos + b.attos + c.attos <= u128::MAX,
    ensures
        plus_spec(a, b).attos == plus_spec(b, a).attos,
        plus_spec(plus_spec(a, b), c).attos == plus_spec(a, plus_spec(b, c)).attos,
{
}

/// The larger of two quantities is at least each of them, and the larger of a
/// quantity and itself is that quantity.
pub proof fn lemma_max_bounds_idempotent(a: Qty, b: Qty)
    ensures
        max_spec(a, b).attos >= a.attos,
        max_spec(a, b).attos >= b.attos,
        max_spec(a, a) == a,
{
}

/// Taking one quantity from another never goes below zero: the result is the
/// difference when it is positive, and zero otherwise.
pub proof fn lemma_saturating_sub_floor(a: Qty, u: Qty)
    ensures
        saturating_sub_spec(a, u).attos >= 0,
        saturating_sub_spec(a, u).attos == if a.attos >= u.attos { a.attos - u.attos } else { 0 },
{
}

fn digit_str(d: u128) -> (r: &'static str)
    requires
        d < 10,
    ensures
        r@ == seq![digit_char(d as nat)],
{
    proof {
        reveal_strlit("0");
        reveal_strlit("1");
        reveal_strlit("2");
        reveal_strlit("3");
        reveal_strlit("4");
        reveal_strlit("5");
        reveal_strlit("6");
        reveal_strlit("7");
        reveal_strlit("8");
        reveal_strlit("9");
    }
    if d == 0 {
        "0"
    } else if d == 1 {
        "1"
    } else if d == 2 {
        "2"
    } else if d == 3 {
        "3"
    } else if d == 4 {
        "4"
    } else if d == 5 {
        "5"
    } else if d == 6 {
        "6"
    } else if d == 7 {
        "7"
    } else if d == 8 {
        "8"
    } else {
        "9"
    }
}

fn push_digits(n: u128, out: &mut String)
    ensures
        final(out)@ == old(out)@ + digits_of(n as nat),
    decreases n,
{
    if n >= 10 {
        push_digits(n / 10, out);
    }
    out.append(digit_str(n % 10));
    proof {
        if n >= 10 {
            assert(old(out)@ + digits_of(n as nat) =~= old(out)@ + digits_of((n / 10) as nat) + seq![
                digit_char((n % 10) as nat),
            ]);
        }
    }
}

fn push_fixed(n: u128, w: usize, out: &mut String)
    ensures
        final(out)@ == old(out)@ + fixed_digits(n as nat, w as nat),
    decreases w,
{
    if w > 0 {
        push_fixed(n / 10, w - 1, out);
        out.append(digit_str(n % 10));
        assert(old(out)@ + fixed_digits(n as nat, w as nat) =~= old(out)@ + fixed_digits((n / 10) as nat, (w - 1) as nat)
            + seq![digit_char((n % 10) as nat)]);
    } else {
        assert(old(out)@ + fixed_digits(n as nat, 0) =~= old(out)@);
    }
}

impl Scale {
    /// The suffix this scale is written with.
    pub fn suffix(&self) -> (r: &'static str)
        ensures
            r@ == suffix_of(*self),
    {
        proof {
            reveal_strlit("n");
            reveal_strlit("u");
            reveal_strlit("m");
            reveal_strlit("");
            reveal_strlit("k");
            reveal_strlit("M");
            reveal_strlit("G");
            reveal_strlit("T");
            reveal_strlit("P");
            reveal_strlit("E");
            reveal_strlit("Ki");
            reveal_strlit("Mi");
            reveal_strlit("Gi");
            reveal_strlit("Ti");
            reveal_strlit("Pi");
            reveal_strlit("Ei");
        }
        match self {
            Scale::Nano => "n",
            Scale::Micro => "u",
            Scale::Milli => "m",
            Scale::Unit => "",
            Scale::Kilo => "k",
            Scale::Mega => "M",
            Scale::Giga => "G",
            Scale::Tera => "T",
            Scale::Peta => "P",
            Scale::Exa => "E",
            Scale::Kibi => "Ki",
            Scale::Mebi => "Mi",
            Scale::Gibi => "Gi",
            Scale::Tebi => "Ti",
            Scale::Pebi => "Pi",
            Scale::Exbi => "Ei",
        }
    }
}

impl Qty {
    /// The exact text of the quantity: a whole number of its own unit where
    /// that is exact, else of the coarsest of unit, milli, micro and nano that
    /// is, else nano-units with nine decimal places.
    pub fn format(&self) -> (r: String)
        ensures
            r@ == text_of(*self),
    {
        let mut out = String::new();
        if self.attos % 1_000_000_000 != 0 {
            push_digits(self.attos / 1_000_000_000, &mut out);
            proof {
                reveal_strlit(".");
                reveal_strlit("n");
            }
            out.append(".");
            push_fixed(self.attos % 1_000_000_000, 9, &mut out);
            out.append("n");
            return out;
        }
        let sc = if self.attos % self.scale.attos() == 0 {
            self.scale
        } else if self.attos % 1_000_000_000_000_000_000 == 0 {
            Scale::Unit
        } else if self.attos % 1_000_000_000_000_000 == 0 {
            Scale::Milli
        } else if self.attos % 1_000_000_000_000 == 0 {
            Scale::Micro
        } else {
            Scale::Nano
        };
        push_digits(self.attos / sc.attos(), &mut out);
        out.append(sc.suffix());
        out
    }

    /// The sum, exact, shown in the finer of the two scales.
    pub fn plus(&self, other: &Qty) -> (r: Qty)
        requires
            self.attos + other.attos <= u128::MAX,
        ensures
            r == plus_spec(*self, *other),
    {
        let scale = if self.scale.attos() <= other.scale.attos() {
            self.scale
        } else {
            other.scale
        };
        Qty { attos: self.attos + other.attos, scale }
    }

    /// The difference, or zero where `other` is the larger.
    pub fn saturating_sub(&self, other: &Qty) -> (r: Qty)
        ensures
            r == saturating_sub_spec(*self, *other),
    {
        let attos = if self.attos > other.attos {
            self.attos - other.attos
        } else {
            0
        };
        Qty { attos, scale: self.scale }
    }

    /// The larger of the two amounts; `self` where they are equal.
    pub fn max(&self, other: &Qty) -> (r: Qty)
        ensures
            r == max_spec(*self, *other),
    {
        if other.attos > self.attos {
            *other
        } else {
            *self
        }
    }

    /// Whether `self` is the smaller amount, whatever the scales.
    pub fn less_than(&self, other: &Qty) -> (r: bool)
        ensures
            r == (self.attos < other.attos),
    {
        self.attos < other.attos
    }

    /// Whether the two amounts are equal, whatever the scales.
    pub fn same_amount(&self, other: &Qty) -> (r: bool)
        ensures
            r == (self.attos == other.attos),
    {
        self.attos == other.attos
    }

    pub fn is_zero(&self) -> (r: bool)
        ensures
            r == (self.attos == 0),
    {
        self.attos == 0
    }

    /// Zero, as a plain count.
    pub fn zero() -> (r: Qty)
        ensures
            r == (Qty { attos: 0, scale: Scale::Unit }),
    {
        Qty { attos: 0, scale: Scale::Unit }
    }

    /// The least amount taken as above zero: one nano-unit.
    pub fn lowest_positive() -> (r: Qty)
        ensures
            r == (Qty { attos: 1_000_000_000, scale: Scale::Nano }),
    {
        Qty { attos: 1_000_000_000, scale: Scale::Nano }
    }
}

/// The next larger scale of the same family: decimal scales step by 1000,
/// binary ones by 1024.
pub open spec fn next_scale(s: Scale) -> Option<Scale> {
    match s {
        Scale::Nano => Some(Scale::Micro),
        Scale::Micro => Some(Scale::Milli),
        Scale::Milli => Some(Scale::Unit),
        Scale::Unit => Some(Scale::Kilo),
        Scale::Kilo => Some(Scale::Mega),
        Scale::Mega => Some(Scale::Giga),
        Scale::Giga => Some(Scale::Tera),
        Scale::Tera => Some(Scale::Peta),
        Scale::Peta => Some(Scale::Exa),
        Scale::Exa => None,
        Scale::Kibi => Some(Scale::Mebi),
        Scale::Mebi => Some(Scale::Gibi),
        Scale::Gibi => Some(Scale::Tebi),
        Scale::Tebi => Some(Scale::Pebi),
        Scale::Pebi => Some(Scale::Exbi),
        Scale::Exbi => None,
    }
}

/// How many steps of its family lie above a scale.
pub open spec fn steps_above(s: Scale) -> nat {
    match s {
        Scale::Nano => 9,
        Scale::Micro => 8,
        Scale::Milli => 7,
        Scale::Unit => 6,
        Scale::Kilo => 5,
        Scale::Mega => 4,
        Scale::Giga => 3,
        Scale::Tera => 2,
        Scale::Peta => 1,
        Scale::Kibi => 5,
        Scale::Mebi => 4,
        Scale::Gibi => 3,
        Scale::Tebi => 2,
        Scale::Pebi => 1,
        _ => 0,
    }
}

/// The first scale, from `s` upward in its family, in which `attos` shows at
/// most three digits before the point; the largest of the family if none.
pub open spec fn display_scale(attos: nat, s: Scale) -> Scale
    decreases steps_above(s),
{
    if attos / attos_per(s) < 1000 {
        s
    } else {
        match next_scale(s) {
            None => s,
            Some(n) => display_scale(attos, n),
        }
    }
}

impl Scale {
    fn next(&self) -> (r: Option<Scale>)
        ensures
            r == next_scale(*self),
    {
        match self {
            Scale::Nano => Some(Scale::Micro),
            Scale::Micro => Some(Scale::Milli),
            Scale::Milli => Some(Scale::Unit),
            Scale::Unit => Some(Scale::Kilo),
            Scale::Kilo => Some(Scale::Mega),
            Scale::Mega => Some(Scale::Giga),
            Scale::Giga => Some(Scale::Tera),
            Scale::Tera => Some(Scale::Peta),
            Scale::Peta => Some(Scale::Exa),
            Scale::Exa => None,
            Scale::Kibi => Some(Scale::Mebi),
            Scale::Mebi => Some(Scale::Gibi),
            Scale::Gibi => Some(Scale::Tebi),
            Scale::Tebi => Some(Scale::Pebi),
            Scale::Pebi => Some(Scale::Exbi),
            Scale::Exbi => None,
        }
    }
}

impl Qty {
    /// The same amount in the scale it reads best in: its own, or the first
    /// larger one of the same family that shows at most three digits before
    /// the point.
    pub fn adjust_scale(&self) -> (r: Qty)
        ensures
            r.attos == self.attos,
            r.scale == display_scale(self.attos as nat, self.scale),
    {
        let mut sc = self.scale;
        loop
            invariant
                display_scale(self.attos as nat, self.scale) == display_scale(self.attos as nat, sc),
            ensures
                display_scale(self.attos as nat, self.scale) == sc,
            decreases steps_above(sc),
        {
            if self.attos / sc.attos() < 1000 {
                break;
            }
            match sc.next() {
                None => {
                    break;
                },
                Some(n) => {
                    sc = n;
                },
            }
        }
        Qty { attos: self.attos, scale: sc }
    }
}

} // verus!
