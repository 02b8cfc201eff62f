use vstd::prelude::*;

verus! {

// ---------------------------------------------------------------------------
// Character classes
// ---------------------------------------------------------------------------

/// Horizontal white space: a space or a tab.
pub open spec fn is_space(c: u8) -> bool {
    c == 32u8 || c == 9u8
}

/// White space that may also break lines.
pub open spec fn is_multispace(c: u8) -> bool {
    is_space(c) || c == 10u8 || c == 13u8
}

pub open spec fn is_dec_digit(c: u8) -> bool {
    48u8 <= c <= 57u8
}

pub open spec fn is_hex_digit(c: u8) -> bool {
    is_dec_digit(c) || (97u8 <= c <= 102u8) || (65u8 <= c <= 70u8)
}

pub open spec fn is_alnum(c: u8) -> bool {
    is_dec_digit(c) || (97u8 <= c <= 122u8) || (65u8 <= c <= 90u8)
}

/// Value of one hexadecimal (or decimal) digit.
pub open spec fn digit_value(c: u8) -> int {
    if is_dec_digit(c) {
        c - 48
    } else if 97u8 <= c <= 102u8 {
        c - 87
    } else {
        c - 55
    }
}

/// `s` holds byte `c` at position `i`.
pub open spec fn at(s: Seq<u8>, i: int, c: u8) -> bool {
    0 <= i < s.len() && s[i] == c
}

pub open spec fn fits_i64(v: int) -> bool {
    i64::MIN <= v <= i64::MAX
}

/// First position at or after `i` that is not a space or tab.
pub open spec fn skip_spaces(s: Seq<u8>, i: int) -> int
    decreases s.len() - i,
{
    if 0 <= i < s.len() && is_space(s[i]) {
        skip_spaces(s, i + 1)
    } else {
        i
    }
}

/// First position at or after `i` that is not white space of any kind.
pub open spec fn skip_multispace(s: Seq<u8>, i: int) -> int
    decreases s.len() - i,
{
    if 0 <= i < s.len() && is_multispace(s[i]) {
        skip_multispace(s, i + 1)
    } else {
        i
    }
}

/// End of the run of decimal digits that starts at `i`.
pub open spec fn dec_end(s: Seq<u8>, i: int) -> int
    decreases s.len() - i,
{
    if 0 <= i < s.len() && is_dec_digit(s[i]) {
        dec_end(s, i + 1)
    } else {
        i
    }
}

/// End of the run of hexadecimal digits that starts at `i`.
pub open spec fn hex_end(s: Seq<u8>, i: int) -> int
    decreases s.len() - i,
{
    if 0 <= i < s.len() && is_hex_digit(s[i]) {
        hex_end(s, i + 1)
    } else {
        i
    }
}

/// End of the run of letters and digits that starts at `i`.
pub open spec fn alnum_end(s: Seq<u8>, i: int) -> int
    decreases s.len() - i,
{
    if 0 <= i < s.len() && is_alnum(s[i]) {
        alnum_end(s, i + 1)
    } else {
        i
    }
}

/// Value of the digits `d` read in base `radix`, most significant first.
pub open spec fn digits_value(d: Seq<u8>, radix: int) -> int
    decreases d.len(),
{
    if d.len() == 0 {
        0
    } else {
        digits_value(d.drop_last(), radix) * radix + digit_value(d.last())
    }
}

// ---------------------------------------------------------------------------
// Expression grammar, evaluated while it is read
// ---------------------------------------------------------------------------

/// Outcome of reading a value at a position: where reading stopped and the
/// exact value, or no match, or a value that does not fit in 64 signed bits.
pub enum Parsed {
    Done { pos: int, value: int },
    NoMatch,
    Overflow,
}

pub open spec fn checked(pos: int, v: int) -> Parsed {
    if fits_i64(v) {
        Parsed::Done { pos, value: v }
    } else {
        Parsed::Overflow
    }
}

/// A literal written in base `radix` on positions `a..e`.
pub open spec fn literal(s: Seq<u8>, a: int, e: int, radix: int) -> Parsed {
    checked(e, digits_value(s.subrange(a, e), radix))
}

/// `number := ('-'|'+') number | ("0x"|"0X") hexdigits | digits`
pub open spec fn number_at(s: Seq<u8>, i: int) -> Parsed
    decreases s.len() - i,
{
    if !(0 <= i < s.len()) {
        Parsed::NoMatch
    } else if s[i] == 45u8 || s[i] == 43u8 {
        match number_at(s, i + 1) {
            Parsed::Done { pos, value } => if s[i] == 45u8 {
                checked(pos, -value)
            } else {
                Parsed::Done { pos, value }
            },
            other => other,
        }
    } else if s[i] == 48u8 && (at(s, i + 1, 120u8) || at(s, i + 1, 88u8)) && 0 <= i + 2 < s.len()
        && is_hex_digit(s[i + 2]) {
        literal(s, i + 2, hex_end(s, i + 2), 16)
    } else if is_dec_digit(s[i]) {
        literal(s, i, dec_end(s, i), 10)
    } else {
        Parsed::NoMatch
    }
}

/// `suffixed := number ('K' | 'M')?`, the suffix scaling by 1024 or 1024 * 1024.
pub open spec fn suffixed_at(s: Seq<u8>, i: int) -> Parsed {
    match number_at(s, i) {
        Parsed::Done { pos, value } => if at(s, pos, 75u8) {
            checked(pos + 1, value * 1024)
        } else if at(s, pos, 77u8) {
            checked(pos + 1, value * 1048576)
        } else {
            Parsed::Done { pos, value }
        },
        other => other,
    }
}

/// `term := '(' terms ')' | '-' term | suffixed`, each choice tried in turn.
pub open spec fn term_at(s: Seq<u8>, i: int) -> Parsed
    decreases s.len() - i, 0int,
{
    let group = if at(s, i, 40u8) {
        let k = skip_spaces(s, i + 1);
        if i < k <= s.len() {
            match terms_at(s, k) {
                Parsed::Done { pos, value } => {
                    let m = skip_spaces(s, pos);
                    if at(s, m, 41u8) {
                        Parsed::Done { pos: m + 1, value }
                    } else {
                        Parsed::NoMatch
                    }
                },
                other => other,
            }
        } else {
            Parsed::NoMatch
        }
    } else {
        Parsed::NoMatch
    };
    let negated = if at(s, i, 45u8) {
        let k = skip_spaces(s, i + 1);
        if i < k <= s.len() {
            match term_at(s, k) {
                Parsed::Done { pos, value } => checked(pos, -value),
                other => other,
            }
        } else {
            Parsed::NoMatch
        }
    } else {
        Parsed::NoMatch
    };
    if !(group is NoMatch) {
        group
    } else if !(negated is NoMatch) {
        negated
    } else {
        suffixed_at(s, i)
    }
}

/// `terms := term (('+'|'-') term)*`, folded from the left.
pub open spec fn terms_at(s: Seq<u8>, i: int) -> Parsed
    decreases s.len() - i, 1int,
{
    match term_at(s, i) {
        Parsed::Done { pos, value } => if i < pos <= s.len() {
            terms_rest(s, pos, value)
        } else {
            Parsed::NoMatch
        },
        other => other,
    }
}

/// The repeated `('+'|'-') term` part of `terms`, after position `j` with the
/// value `acc` so far. An operator without a term after it is left unread.
pub open spec fn terms_rest(s: Seq<u8>, j: int, acc: int) -> Parsed
    decreases s.len() - j, 2int,
{
    let m = skip_spaces(s, j);
    if at(s, m, 43u8) || at(s, m, 45u8) {
        let k = skip_spaces(s, m + 1);
        if j < k <= s.len() {
            match term_at(s, k) {
                Parsed::Done { pos, value } => {
                    let v = if s[m] == 43u8 {
                        acc + value
                    } else {
                        acc - value
                    };
                    if !fits_i64(v) {
                        Parsed::Overflow
                    } else if k < pos <= s.len() {
                        terms_rest(s, pos, v)
                    } else {
                        Parsed::NoMatch
                    }
                },
                Parsed::NoMatch => Parsed::Done { pos: j, value: acc },
                Parsed::Overflow => Parsed::Overflow,
            }
        } else {
            Parsed::NoMatch
        }
    } else {
        Parsed::Done { pos: j, value: acc }
    }
}


// ---------------------------------------------------------------------------
// Errors
// ---------------------------------------------------------------------------

#[derive(Clone, Copy, Debug, PartialEq, Eq, Structural)]
pub enum LinkParseErrorKind {
    /// The text does not match the grammar at the place where it is read.
    ParseError,
    /// A value does not fit in 64 signed bits (or a literal in 64 unsigned bits).
    IntegerOverflow,
    /// A declaration of the wanted region has no ORIGIN field.
    MissingOrigin,
    /// A declaration of the wanted region has no LENGTH field.
    MissingLength,
    /// No declaration of the wanted region stands in the text.
    RegionNotFound,
}

#[derive(Clone, Copy, Debug, PartialEq, Eq, Structural)]
pub struct LinkParseError {
    pub kind: LinkParseErrorKind,
}

/// An executable result tells the same as the outcome `p` of the grammar.
pub open spec fn agrees(r: Result<(usize, i64), LinkParseErrorKind>, p: Parsed) -> bool {
    match p {
        Parsed::Done { pos, value } => r is Ok && r->Ok_0.0 == pos && r->Ok_0.1 == value,
        Parsed::NoMatch => r == Err::<(usize, i64), _>(LinkParseErrorKind::ParseError),
        Parsed::Overflow => r == Err::<(usize, i64), _>(LinkParseErrorKind::IntegerOverflow),
    }
}

/// Where an outcome that read something stopped lies after `i`, within `s`.
pub open spec fn advances(p: Parsed, s: Seq<u8>, i: int) -> bool {
    p is Done ==> i < p->pos <= s.len()
}

// ---------------------------------------------------------------------------
// Scanning
// ---------------------------------------------------------------------------

fn skip_spaces_exec(s: &[u8], i: usize) -> (r: usize)
    requires
        i <= s@.len(),
    ensures
        r == skip_spaces(s@, i as int),
        i <= r <= s@.len(),
{
    let mut j: usize = i;
    while j < s.len() && (s[j] == 32u8 || s[j] == 9u8)
        invariant
            i <= j <= s@.len(),
            skip_spaces(s@, j as int) == skip_spaces(s@, i as int),
        decreases s@.len() - j,
    {
        j = j + 1;
    }
    j
}

fn skip_multispace_exec(s: &[u8], i: usize) -> (r: usize)
    requires
        i <= s@.len(),
    ensures
        r == skip_multispace(s@, i as int),
        i <= r <= s@.len(),
{
    let mut j: usize = i;
    while j < s.len() && (s[j] == 32u8 || s[j] == 9u8 || s[j] == 10u8 || s[j] == 13u8)
        invariant
            i <= j <= s@.len(),
            skip_multispace(s@, j as int) == skip_multispace(s@, i as int),
        decreases s@.len() - j,
    {
        j = j + 1;
    }
    j
}

fn dec_end_exec(s: &[u8], i: usize) -> (r: usize)
    requires
        i <= s@.len(),
    ensures
        r == dec_end(s@, i as int),
        i <= r <= s@.len(),
        i < s@.len() && is_dec_digit(s@[i as int]) ==> i < r,
        forall|k: int| i <= k < r ==> is_dec_digit(#[trigger] s@[k]),
{
    let mut j: usize = i;
    while j < s.len() && 48u8 <= s[j] && s[j] <= 57u8
        invariant
            i <= j <= s@.len(),
            dec_end(s@, j as int) == dec_end(s@, i as int),
            forall|k: int| i <= k < j ==> is_dec_digit(#[trigger] s@[k]),
        decreases s@.len() - j,
    {
        j = j + 1;
    }
    j
}

fn is_hex_digit_exec(c: u8) -> (r: bool)
    ensures
        r == is_hex_digit(c),
{
    (48u8 <= c && c <= 57u8) || (97u8 <= c && c <= 102u8) || (65u8 <= c && c <= 70u8)
}

fn is_alnum_exec(c: u8) -> (r: bool)
    ensures
        r == is_alnum(c),
{
    (48u8 <= c && c <= 57u8) || (97u8 <= c && c <= 122u8) || (65u8 <= c && c <= 90u8)
}

fn hex_end_exec(s: &[u8], i: usize) -> (r: usize)
    requires
        i <= s@.len(),
    ensures
        r == hex_end(s@, i as int),
        i <= r <= s@.len(),
        i < s@.len() && is_hex_digit(s@[i as int]) ==> i < r,
        forall|k: int| i <= k < r ==> is_hex_digit(#[trigger] s@[k]),
{
    let mut j: usize = i;
    while j < s.len() && is_hex_digit_exec(s[j])
        invariant
            i <= j <= s@.len(),
            hex_end(s@, j as int) == hex_end(s@, i as int),
            forall|k: int| i <= k < j ==> is_hex_digit(#[trigger] s@[k]),
        decreases s@.len() - j,
    {
        j = j + 1;
    }
    j
}

fn alnum_end_exec(s: &[u8], i: usize) -> (r: usize)
    requires
        i <= s@.len(),
    ensures
        r == alnum_end(s@, i as int),
        i <= r <= s@.len(),
{
    let mut j: usize = i;
    while j < s.len() && is_alnum_exec(s[j])
        invariant
            i <= j <= s@.len(),
            alnum_end(s@, j as int) == alnum_end(s@, i as int),
        decreases s@.len() - j,
    {
        j = j + 1;
    }
    j
}

// ---------------------------------------------------------------------------
// Digits
// ---------------------------------------------------------------------------

proof fn lemma_digits_value_nonneg(d: Seq<u8>, radix: int)
    requires
        radix == 10 || radix == 16,
        forall|k: int| 0 <= k < d.len() ==> is_hex_digit(#[trigger] d[k]),
    ensures
        digits_value(d, radix) >= 0,
    decreases d.len(),
{
    if d.len() > 0 {
        lemma_digits_value_nonneg(d.drop_last(), radix);
        assert(is_hex_digit(d[d.len() - 1]));
    }
}

/// A longer run of digits is worth at least as much as its prefix.
proof fn lemma_digits_value_grows(d: Seq<u8>, n: int, radix: int)
    requires
        radix == 10 || radix == 16,
        0 <= n <= d.len(),
        forall|k: int| 0 <= k < d.len() ==> is_hex_digit(#[trigger] d[k]),
    ensures
        digits_value(d, radix) >= digits_value(d.subrange(0, n), radix),
    decreases d.len() - n,
{
    if n < d.len() {
        let p = d.subrange(0, n + 1);
        assert(p.drop_last() =~= d.subrange(0, n));
        assert(is_hex_digit(p.last()));
        lemma_digits_value_nonneg(d.subrange(0, n), radix);
        assert(digits_value(p, radix) >= digits_value(d.subrange(0, n), radix)) by (nonlinear_arith)
            requires
                digits_value(p, radix) == digits_value(d.subrange(0, n), radix) * radix
                    + digit_value(p.last()),
                digits_value(d.subrange(0, n), radix) >= 0,
                radix >= 10,
                digit_value(p.last()) >= 0,
        ;
        lemma_digits_value_grows(d, n + 1, radix);
        assert(d.subrange(0, n + 1).subrange(0, n) =~= d.subrange(0, n));
    } else {
        assert(d.subrange(0, n) =~= d);
    }
}

/// Reads the digits `d` in base `radix`: fails with `ParseError` when `d` is
/// empty or holds a byte that is no digit of that base, with `IntegerOverflow`
/// when the value does not fit in 64 unsigned bits.
fn digits_to_u64(d: &[u8], radix: u64) -> (r: Result<u64, LinkParseErrorKind>)
    requires
        radix == 10 || radix == 16,
    ensures
        match r {
            Ok(v) => valid_digits(d@, radix as int) && v == digits_value(d@, radix as int),
            Err(k) => if !valid_digits(d@, radix as int) {
                k == LinkParseErrorKind::ParseError
            } else {
                k == LinkParseErrorKind::IntegerOverflow && digits_value(d@, radix as int)
                    > u64::MAX
            },
        },
{
    let mut k: usize = 0;
    while k < d.len()
        invariant
            0 <= k <= d@.len(),
            forall|j: int| 0 <= j < k ==> is_radix_digit(#[trigger] d@[j], radix as int),
        decreases d@.len() - k,
    {
        let c = d[k];
        let ok = if radix == 10 {
            48u8 <= c && c <= 57u8
        } else {
            is_hex_digit_exec(c)
        };
        if !ok {
            return Err(LinkParseErrorKind::ParseError);
        }
        k = k + 1;
    }
    if d.len() == 0 {
        return Err(LinkParseErrorKind::ParseError);
    }
    let mut acc: u64 = 0;
    let mut k: usize = 0;
    while k < d.len()
        invariant
            valid_digits(d@, radix as int),
            radix == 10 || radix == 16,
            0 <= k <= d@.len(),
            acc == digits_value(d@.subrange(0, k as int), radix as int),
        decreases d@.len() - k,
    {
        let c = d[k];
        let dv: u64 = if 48u8 <= c && c <= 57u8 {
            (c - 48u8) as u64
        } else if 97u8 <= c && c <= 102u8 {
            (c - 87u8) as u64
        } else {
            (c - 55u8) as u64
        };
        proof {
            let p = d@.subrange(0, k as int + 1);
            assert(p.drop_last() =~= d@.subrange(0, k as int));
            assert(p.last() == c);
            assert(is_hex_digit(c));
        }
        if acc > (u64::MAX - dv) / radix {
            proof {
                assert(acc * radix + dv > u64::MAX) by (nonlinear_arith)
                    requires
                        acc as int > (u64::MAX - dv) as int / radix as int,
                        radix > 0,
                        dv <= u64::MAX,
                ;
                lemma_digits_value_grows(d@, k as int + 1, radix as int);
            }
            return Err(LinkParseErrorKind::IntegerOverflow);
        }
        proof {
            assert(acc * radix + dv <= u64::MAX) by (nonlinear_arith)
                requires
                    acc as int <= (u64::MAX - dv) as int / radix as int,
                    radix > 0,
                    dv <= u64::MAX,
            ;
        }
        acc = acc * radix + dv;
        k = k + 1;
    }
    assert(d@.subrange(0, d@.len() as int) =~= d@);
    Ok(acc)
}

pub open spec fn is_radix_digit(c: u8, radix: int) -> bool {
    if radix == 10 {
        is_dec_digit(c)
    } else {
        is_hex_digit(c)
    }
}

/// `d` is a non-empty run of digits of base `radix`.
pub open spec fn valid_digits(d: Seq<u8>, radix: int) -> bool {
    d.len() > 0 && forall|k: int| 0 <= k < d.len() ==> is_radix_digit(#[trigger] d[k], radix)
}

/// Reads a run of hexadecimal digits as an unsigned 64-bit value.
pub fn from_hex(input: &[u8]) -> (r: Result<u64, LinkParseErrorKind>)
    ensures
        r is Ok <==> valid_digits(input@, 16) && digits_value(input@, 16) <= u64::MAX,
        r is Ok ==> r->Ok_0 == digits_value(input@, 16),
        r == Err::<u64, _>(LinkParseErrorKind::ParseError) <==> !valid_digits(input@, 16),
        valid_digits(input@, 16) && digits_value(input@, 16) > u64::MAX ==> r == Err::<u64, _>(
            LinkParseErrorKind::IntegerOverflow,
        ),
{
    digits_to_u64(input, 16)
}

/// Reads a run of decimal digits as an unsigned 64-bit value.
pub fn from_dec(input: &[u8]) -> (r: Result<u64, LinkParseErrorKind>)
    ensures
        r is Ok <==> valid_digits(input@, 10) && digits_value(input@, 10) <= u64::MAX,
        r is Ok ==> r->Ok_0 == digits_value(input@, 10),
        r == Err::<u64, _>(LinkParseErrorKind::ParseError) <==> !valid_digits(input@, 10),
        valid_digits(input@, 10) && digits_value(input@, 10) > u64::MAX ==> r == Err::<u64, _>(
            LinkParseErrorKind::IntegerOverflow,
        ),
{
    digits_to_u64(input, 10)
}


// ---------------------------------------------------------------------------
// Expression evaluation
// ---------------------------------------------------------------------------

/// Reads the literal on positions `a..e`, all of them digits of base `radix`.
fn literal_exec(s: &[u8], a: usize, e: usize, radix: u64) -> (r: Result<(usize, i64), LinkParseErrorKind>)
    requires
        a < e <= s@.len(),
        radix == 10 || radix == 16,
        forall|k: int| a <= k < e ==> is_radix_digit(#[trigger] s@[k], radix as int),
    ensures
        agrees(r, literal(s@, a as int, e as int, radix as int)),
{
    let digits = vstd::slice::slice_subrange(s, a, e);
    assert(valid_digits(digits@, radix as int)) by {
        assert forall|k: int| 0 <= k < digits@.len() implies is_radix_digit(
            #[trigger] digits@[k],
            radix as int,
        ) by {
            assert(digits@[k] == s@[a + k]);
        }
    }
    proof {
        assert forall|k: int| 0 <= k < digits@.len() implies is_hex_digit(#[trigger] digits@[k]) by {
            assert(is_radix_digit(digits@[k], radix as int));
        }
        lemma_digits_value_nonneg(digits@, radix as int);
    }
    match digits_to_u64(digits, radix) {
        Ok(v) => if v > 9223372036854775807u64 {
            Err(LinkParseErrorKind::IntegerOverflow)
        } else {
            Ok((e, v as i64))
        },
        Err(k) => Err(k),
    }
}

fn number_exec(s: &[u8], i: usize) -> (r: Result<(usize, i64), LinkParseErrorKind>)
    requires
        i <= s@.len(),
    ensures
        agrees(r, number_at(s@, i as int)),
        advances(number_at(s@, i as int), s@, i as int),
    decreases s@.len() - i,
{
    if i >= s.len() {
        return Err(LinkParseErrorKind::ParseError);
    }
    let c = s[i];
    if c == 45u8 || c == 43u8 {
        match number_exec(s, i + 1) {
            Ok((pos, v)) => if c == 45u8 {
                if v == i64::MIN {
                    Err(LinkParseErrorKind::IntegerOverflow)
                } else {
                    Ok((pos, -v))
                }
            } else {
                Ok((pos, v))
            },
            Err(k) => Err(k),
        }
    } else if c == 48u8 && s.len() - i > 2 && (s[i + 1] == 120u8 || s[i + 1] == 88u8)
        && is_hex_digit_exec(s[i + 2]) {
        let e = hex_end_exec(s, i + 2);
        literal_exec(s, i + 2, e, 16)
    } else if 48u8 <= c && c <= 57u8 {
        let e = dec_end_exec(s, i);
        literal_exec(s, i, e, 10)
    } else {
        Err(LinkParseErrorKind::ParseError)
    }
}

fn suffixed_exec(s: &[u8], i: usize) -> (r: Result<(usize, i64), LinkParseErrorKind>)
    requires
        i <= s@.len(),
    ensures
        agrees(r, suffixed_at(s@, i as int)),
        advances(suffixed_at(s@, i as int), s@, i as int),
{
    match number_exec(s, i) {
        Ok((pos, v)) => if pos < s.len() && s[pos] == 75u8 {
            if v < -9007199254740992i64 || v > 9007199254740991i64 {
                Err(LinkParseErrorKind::IntegerOverflow)
            } else {
                Ok((pos + 1, v * 1024))
            }
        } else if pos < s.len() && s[pos] == 77u8 {
            if v < -8796093022208i64 || v > 8796093022207i64 {
                Err(LinkParseErrorKind::IntegerOverflow)
            } else {
                Ok((pos + 1, v * 1048576))
            }
        } else {
            Ok((pos, v))
        },
        Err(k) => Err(k),
    }
}

fn term_exec(s: &[u8], i: usize) -> (r: Result<(usize, i64), LinkParseErrorKind>)
    requires
        i <= s@.len(),
    ensures
        agrees(r, term_at(s@, i as int)),
        advances(term_at(s@, i as int), s@, i as int),
    decreases s@.len() - i, 0int,
{
    if i < s.len() && s[i] == 40u8 {
        let k = skip_spaces_exec(s, i + 1);
        let group = match terms_exec(s, k) {
            Ok((pos, v)) => {
                let m = skip_spaces_exec(s, pos);
                if m < s.len() && s[m] == 41u8 {
                    Ok((m + 1, v))
                } else {
                    Err(LinkParseErrorKind::ParseError)
                }
            },
            Err(e) => Err(e),
        };
        match group {
            Err(LinkParseErrorKind::ParseError) => {},
            other => return other,
        }
    }
    if i < s.len() && s[i] == 45u8 {
        let k = skip_spaces_exec(s, i + 1);
        let negated = match term_exec(s, k) {
            Ok((pos, v)) => if v == i64::MIN {
                Err(LinkParseErrorKind::IntegerOverflow)
            } else {
                Ok((pos, -v))
            },
            Err(e) => Err(e),
        };
        match negated {
            Err(LinkParseErrorKind::ParseError) => {},
            other => return other,
        }
    }
    suffixed_exec(s, i)
}

fn terms_exec(s: &[u8], i: usize) -> (r: Result<(usize, i64), LinkParseErrorKind>)
    requires
        i <= s@.len(),
    ensures
        agrees(r, terms_at(s@, i as int)),
        advances(terms_at(s@, i as int), s@, i as int),
    decreases s@.len() - i, 1int,
{
    let (first_pos, first) = match term_exec(s, i) {
        Ok(t) => t,
        Err(e) => return Err(e),
    };
    let mut j: usize = first_pos;
    let mut acc: i64 = first;
    loop
        invariant
            i < j <= s@.len(),
            terms_rest(s@, j as int, acc as int) == terms_at(s@, i as int),
        decreases s@.len() - j,
    {
        let m = skip_spaces_exec(s, j);
        if m < s.len() && (s[m] == 43u8 || s[m] == 45u8) {
            let k = skip_spaces_exec(s, m + 1);
            match term_exec(s, k) {
                Ok((pos, b)) => {
                    let wide: i128 = if s[m] == 43u8 {
                        acc as i128 + b as i128
                    } else {
                        acc as i128 - b as i128
                    };
                    if wide < i64::MIN as i128 || wide > i64::MAX as i128 {
                        return Err(LinkParseErrorKind::IntegerOverflow);
                    }
                    j = pos;
                    acc = wide as i64;
                },
                Err(LinkParseErrorKind::ParseError) => return Ok((j, acc)),
                Err(e) => return Err(e),
            }
        } else {
            return Ok((j, acc));
        }
    }
}

/// The public form of an outcome: the unread rest of the input and the value.
pub open spec fn reads_as(r: Result<(&[u8], i64), LinkParseError>, s: Seq<u8>, p: Parsed) -> bool {
    match p {
        Parsed::Done { pos, value } => r is Ok && r->Ok_0.0@ == s.subrange(pos, s.len() as int)
            && r->Ok_0.1 == value,
        Parsed::NoMatch => r is Err && r->Err_0.kind == LinkParseErrorKind::ParseError,
        Parsed::Overflow => r is Err && r->Err_0.kind == LinkParseErrorKind::IntegerOverflow,
    }
}

fn publish<'a>(s: &'a [u8], i: usize, r: Result<(usize, i64), LinkParseErrorKind>, Ghost(p): Ghost<Parsed>) -> (out: Result<(&'a [u8], i64), LinkParseError>)
    requires
        agrees(r, p),
        advances(p, s@, i as int),
    ensures
        reads_as(out, s@, p),
{
    match r {
        Ok((pos, v)) => {
            let (_, rest) = s.split_at(pos);
            Ok((rest, v))
        },
        Err(kind) => Err(LinkParseError { kind }),
    }
}

/// Reads one signed number: any number of leading signs, then a hexadecimal
/// literal after `0x` or `0X`, or a decimal one.
pub fn number(input: &[u8]) -> (r: Result<(&[u8], i64), LinkParseError>)
    ensures
        reads_as(r, input@, number_at(input@, 0)),
{
    let r = number_exec(input, 0);
    publish(input, 0, r, Ghost(number_at(input@, 0)))
}

/// Reads one number with an optional `K` or `M` suffix, which scales it by
/// 1024 or 1024 * 1024 once.
pub fn suffixed(input: &[u8]) -> (r: Result<(&[u8], i64), LinkParseError>)
    ensures
        reads_as(r, input@, suffixed_at(input@, 0)),
{
    let r = suffixed_exec(input, 0);
    publish(input, 0, r, Ghost(suffixed_at(input@, 0)))
}

/// Reads a sum or difference of terms, from the left.
pub fn terms(input: &[u8]) -> (r: Result<(&[u8], i64), LinkParseError>)
    ensures
        reads_as(r, input@, terms_at(input@, 0)),
{
    let r = terms_exec(input, 0);
    publish(input, 0, r, Ghost(terms_at(input@, 0)))
}

/// Reads and evaluates an expression of a memory declaration.
pub fn expr(input: &[u8]) -> (r: Result<(&[u8], i64), LinkParseError>)
    ensures
        reads_as(r, input@, terms_at(input@, 0)),
{
    terms(input)
}


// ---------------------------------------------------------------------------
// Memory region declarations
// ---------------------------------------------------------------------------

pub open spec fn origin_word() -> Seq<u8> {
    seq![79u8, 82u8, 73u8, 71u8, 73u8, 78u8]
}

pub open spec fn length_word() -> Seq<u8> {
    seq![76u8, 69u8, 78u8, 71u8, 84u8, 72u8]
}

pub open spec fn memory_word() -> Seq<u8> {
    seq![77u8, 69u8, 77u8, 79u8, 82u8, 89u8]
}

/// First position at or after `i` that holds byte `c`, or `s.len()`.
pub open spec fn find_byte(s: Seq<u8>, i: int, c: u8) -> int
    decreases s.len() - i,
{
    if !(0 <= i < s.len()) {
        s.len() as int
    } else if s[i] == c {
        i
    } else {
        find_byte(s, i + 1, c)
    }
}

/// Where the parts of `NAME ('(' attr ')')? ':'` stand: the name on
/// `name.0 .. name.1`, the attribute text, and the first position after `:`.
pub struct Head {
    pub name: (int, int),
    pub attr: Option<(int, int)>,
    pub body: int,
}

pub open spec fn head_at(s: Seq<u8>, i: int) -> Option<Head> {
    let a = skip_spaces(s, i);
    let b = alnum_end(s, a);
    let c = skip_spaces(s, b);
    let f = find_byte(s, c + 1, 41u8);
    let (attr, d) = if at(s, c, 40u8) && f < s.len() {
        (Some((c + 1, f)), f + 1)
    } else {
        (None::<(int, int)>, c)
    };
    if a < b && at(s, d, 58u8) {
        Some(Head { name: (a, b), attr, body: d + 1 })
    } else {
        None
    }
}

/// One field `NAME = expr`: the name's place, where the expression starts,
/// its value and where it ends.
pub enum Arg {
    Done { name: (int, int), start: int, value: int, pos: int },
    NoMatch,
    Overflow,
}

pub open spec fn arg_at(s: Seq<u8>, j: int) -> Arg {
    let a = skip_spaces(s, j);
    let b = alnum_end(s, a);
    let c = skip_spaces(s, b);
    let e = skip_spaces(s, c + 1);
    if a < b && at(s, c, 61u8) {
        match terms_at(s, e) {
            Parsed::Done { pos, value } => Arg::Done { name: (a, b), start: e, value, pos },
            Parsed::NoMatch => Arg::NoMatch,
            Parsed::Overflow => Arg::Overflow,
        }
    } else {
        Arg::NoMatch
    }
}

/// The ORIGIN and LENGTH values seen so far, and where the text of the
/// ORIGIN expression stands.
pub struct Seen {
    pub origin: Option<int>,
    pub length: Option<int>,
    pub origin_text: (int, int),
}

pub open spec fn nothing_seen() -> Seen {
    Seen { origin: None, length: None, origin_text: (0, 0) }
}

/// A later field replaces an earlier one of the same name.
pub open spec fn keep(s: Seq<u8>, seen: Seen, name: (int, int), value: int, text: (int, int)) -> Seen {
    if s.subrange(name.0, name.1) == origin_word() {
        Seen { origin: Some(value), origin_text: text, ..seen }
    } else if s.subrange(name.0, name.1) == length_word() {
        Seen { length: Some(value), ..seen }
    } else {
        seen
    }
}

/// Outcome of reading the comma-separated fields of a declaration.
pub enum Fields {
    Done { seen: Seen, end: int },
    NoMatch,
    Overflow,
}

pub open spec fn fields_rest(s: Seq<u8>, j: int, seen: Seen) -> Fields
    decreases s.len() - j,
{
    let m = skip_spaces(s, j);
    if at(s, m, 44u8) {
        match arg_at(s, m + 1) {
            Arg::Done { name, start, value, pos } => if j < pos <= s.len() {
                fields_rest(s, pos, keep(s, seen, name, value, (start, pos)))
            } else {
                Fields::NoMatch
            },
            Arg::NoMatch => Fields::Done { seen, end: j },
            Arg::Overflow => Fields::Overflow,
        }
    } else {
        Fields::Done { seen, end: j }
    }
}

pub open spec fn fields_at(s: Seq<u8>, j: int) -> Fields {
    match arg_at(s, j) {
        Arg::Done { name, start, value, pos } => fields_rest(
            s,
            pos,
            keep(s, nothing_seen(), name, value, (start, pos)),
        ),
        Arg::NoMatch => Fields::NoMatch,
        Arg::Overflow => Fields::Overflow,
    }
}

/// Outcome of reading a whole declaration at a position.
pub enum Line {
    Found {
        name: (int, int),
        attr: Option<(int, int)>,
        origin: int,
        origin_text: (int, int),
        length: int,
        end: int,
    },
    NoMatch,
    Fatal { kind: LinkParseErrorKind },
}

pub open spec fn line_at(s: Seq<u8>, i: int) -> Line {
    match head_at(s, i) {
        None => Line::NoMatch,
        Some(h) => match fields_at(s, h.body) {
            Fields::Done { seen, end } => if seen.origin is None {
                Line::Fatal { kind: LinkParseErrorKind::MissingOrigin }
            } else if seen.length is None {
                Line::Fatal { kind: LinkParseErrorKind::MissingLength }
            } else {
                Line::Found {
                    name: h.name,
                    attr: h.attr,
                    origin: seen.origin->Some_0,
                    origin_text: seen.origin_text,
                    length: seen.length->Some_0,
                    end,
                }
            },
            Fields::NoMatch => Line::NoMatch,
            Fields::Overflow => Line::Fatal { kind: LinkParseErrorKind::IntegerOverflow },
        },
    }
}

/// No letter or digit stands right before position `a`: a name read from
/// there is a whole name, not the tail of a longer one.
pub open spec fn starts_word(s: Seq<u8>, a: int) -> bool {
    a <= 0 || !is_alnum(s[a - 1])
}

/// A declaration of the region named `target` at `i`. A declaration of
/// another name, the tail of a longer name, or text that is no declaration,
/// does not match.
pub open spec fn region_at(s: Seq<u8>, i: int, target: Seq<u8>) -> Line {
    match head_at(s, i) {
        Some(h) => if s.subrange(h.name.0, h.name.1) == target && starts_word(s, h.name.0) {
            line_at(s, i)
        } else {
            Line::NoMatch
        },
        None => Line::NoMatch,
    }
}

/// The first start position from `i` on where `region_at` does not give
/// `NoMatch`, with what it gives there; `NoMatch` if there is none.
pub open spec fn scan_from(s: Seq<u8>, target: Seq<u8>, i: int) -> (int, Line)
    decreases s.len() - i,
{
    if !(0 <= i < s.len()) {
        (i, Line::NoMatch)
    } else if region_at(s, i, target) is NoMatch {
        scan_from(s, target, i + 1)
    } else {
        (i, region_at(s, i, target))
    }
}


fn find_byte_exec(s: &[u8], i: usize, c: u8) -> (r: usize)
    requires
        i <= s@.len(),
    ensures
        r == find_byte(s@, i as int, c),
        i <= r <= s@.len(),
{
    let mut j: usize = i;
    while j < s.len() && s[j] != c
        invariant
            i <= j <= s@.len(),
            find_byte(s@, j as int, c) == find_byte(s@, i as int, c),
        decreases s@.len() - j,
    {
        j = j + 1;
    }
    j
}

/// `s` holds the bytes `w` on positions `a..b`.
fn same_bytes(s: &[u8], a: usize, b: usize, w: &[u8]) -> (r: bool)
    requires
        a <= b <= s@.len(),
    ensures
        r == (s@.subrange(a as int, b as int) == w@),
{
    if b - a != w.len() {
        return false;
    }
    let mut k: usize = 0;
    while k < w.len()
        invariant
            b - a == w@.len(),
            a <= b <= s@.len(),
            0 <= k <= w@.len(),
            forall|j: int| 0 <= j < k ==> s@[a + j] == w@[j],
        decreases w@.len() - k,
    {
        if s[a + k] != w[k] {
            assert(s@.subrange(a as int, b as int)[k as int] != w@[k as int]);
            return false;
        }
        k = k + 1;
    }
    assert(s@.subrange(a as int, b as int) =~= w@);
    true
}

struct HeadPos {
    name_start: usize,
    name_end: usize,
    attr: Option<(usize, usize)>,
    body: usize,
}

spec fn head_agrees(r: Option<HeadPos>, h: Option<Head>) -> bool {
    match h {
        None => r is None,
        Some(h) => r is Some && r->Some_0.name_start == h.name.0 && r->Some_0.name_end == h.name.1
            && r->Some_0.body == h.body && (r->Some_0.attr is Some <==> h.attr is Some) && (h.attr is Some
            ==> r->Some_0.attr->Some_0.0 == h.attr->Some_0.0 && r->Some_0.attr->Some_0.1
            == h.attr->Some_0.1),
    }
}

/// Where the parts of a declaration head lie inside `s`.
pub open spec fn head_inside(h: Option<Head>, s: Seq<u8>, i: int) -> bool {
    h is Some ==> {
        let h = h->Some_0;
        i <= h.name.0 < h.name.1 < h.body <= s.len() && match h.attr {
            None => true,
            Some(a) => 0 <= a.0 <= a.1 <= s.len(),
        }
    }
}

fn head_exec(s: &[u8], i: usize) -> (r: Option<HeadPos>)
    requires
        i <= s@.len(),
    ensures
        head_agrees(r, head_at(s@, i as int)),
        head_inside(head_at(s@, i as int), s@, i as int),
{
    let a = skip_spaces_exec(s, i);
    let b = alnum_end_exec(s, a);
    let c = skip_spaces_exec(s, b);
    let mut attr: Option<(usize, usize)> = None;
    let mut d = c;
    if c < s.len() && s[c] == 40u8 {
        let f = find_byte_exec(s, c + 1, 41u8);
        if f < s.len() {
            attr = Some((c + 1, f));
            d = f + 1;
        }
    }
    if a < b && d < s.len() && s[d] == 58u8 {
        Some(HeadPos { name_start: a, name_end: b, attr, body: d + 1 })
    } else {
        None
    }
}

spec fn arg_agrees(r: Result<(usize, usize, usize, i64, usize), LinkParseErrorKind>, p: Arg) -> bool {
    match p {
        Arg::Done { name, start, value, pos } => r is Ok && r->Ok_0.0 == name.0 && r->Ok_0.1
            == name.1 && r->Ok_0.2 == start && r->Ok_0.3 == value && r->Ok_0.4 == pos,
        Arg::NoMatch => r == Err::<(usize, usize, usize, i64, usize), _>(
            LinkParseErrorKind::ParseError,
        ),
        Arg::Overflow => r == Err::<(usize, usize, usize, i64, usize), _>(
            LinkParseErrorKind::IntegerOverflow,
        ),
    }
}

fn arg_exec(s: &[u8], j: usize) -> (r: Result<(usize, usize, usize, i64, usize), LinkParseErrorKind>)
    requires
        j <= s@.len(),
    ensures
        arg_agrees(r, arg_at(s@, j as int)),
        arg_at(s@, j as int) is Done ==> {
            let p = arg_at(s@, j as int);
            j <= p->name.0 <= p->name.1 <= s@.len() && j < p->pos <= s@.len() && j <= p->start
                <= p->pos
        },
{
    let a = skip_spaces_exec(s, j);
    let b = alnum_end_exec(s, a);
    let c = skip_spaces_exec(s, b);
    if !(a < b && c < s.len() && s[c] == 61u8) {
        return Err(LinkParseErrorKind::ParseError);
    }
    let e = skip_spaces_exec(s, c + 1);
    match terms_exec(s, e) {
        Ok((pos, value)) => Ok((a, b, e, value, pos)),
        Err(k) => Err(k),
    }
}

struct SeenPos {
    origin: Option<i64>,
    length: Option<i64>,
    origin_start: usize,
    origin_end: usize,
}

spec fn seen_agrees(r: SeenPos, seen: Seen) -> bool {
    (r.origin is Some <==> seen.origin is Some) && (r.origin is Some ==> r.origin->Some_0
        == seen.origin->Some_0) && (r.length is Some <==> seen.length is Some) && (r.length is Some
        ==> r.length->Some_0 == seen.length->Some_0) && r.origin_start == seen.origin_text.0
        && r.origin_end == seen.origin_text.1
}

/// The ORIGIN text recorded so far lies inside `s`.
pub open spec fn seen_inside(seen: Seen, s: Seq<u8>) -> bool {
    0 <= seen.origin_text.0 <= seen.origin_text.1 <= s.len()
}

fn keep_exec(
    s: &[u8],
    seen: SeenPos,
    a: usize,
    b: usize,
    e: usize,
    value: i64,
    pos: usize,
    Ghost(g): Ghost<Seen>,
) -> (r: SeenPos)
    requires
        a <= b <= s@.len(),
        seen_agrees(seen, g),
    ensures
        seen_agrees(r, keep(s@, g, (a as int, b as int), value as int, (e as int, pos as int))),
{
    let ow: [u8; 6] = [79u8, 82u8, 73u8, 71u8, 73u8, 78u8];
    let lw: [u8; 6] = [76u8, 69u8, 78u8, 71u8, 84u8, 72u8];
    assert(ow@ =~= origin_word());
    assert(lw@ =~= length_word());
    if same_bytes(s, a, b, ow.as_slice()) {
        SeenPos { origin: Some(value), origin_start: e, origin_end: pos, ..seen }
    } else if same_bytes(s, a, b, lw.as_slice()) {
        SeenPos { length: Some(value), ..seen }
    } else {
        seen
    }
}

/// Where the parts of a declaration stand in the text it was read from: the
/// name, the attribute text, the text of the ORIGIN expression, and the end.
pub struct DeclPos {
    pub name_start: usize,
    pub name_end: usize,
    pub attr: Option<(usize, usize)>,
    pub origin: i64,
    pub origin_start: usize,
    pub origin_end: usize,
    pub length: i64,
    pub end: usize,
}

/// An executable declaration tells the same as the outcome `l`.
pub open spec fn line_agrees(r: Result<DeclPos, LinkParseErrorKind>, l: Line) -> bool {
    match l {
        Line::Found { name, attr, origin, origin_text, length, end } => r is Ok && r->Ok_0.name_start
            == name.0 && r->Ok_0.name_end == name.1 && r->Ok_0.origin == origin && r->Ok_0.length
            == length && r->Ok_0.end == end && r->Ok_0.origin_start == origin_text.0
            && r->Ok_0.origin_end == origin_text.1 && (r->Ok_0.attr is Some <==> attr is Some) && (
        attr is Some ==> r->Ok_0.attr->Some_0.0 == attr->Some_0.0 && r->Ok_0.attr->Some_0.1
            == attr->Some_0.1),
        Line::NoMatch => r == Err::<DeclPos, _>(LinkParseErrorKind::ParseError),
        Line::Fatal { kind } => r == Err::<DeclPos, _>(kind),
    }
}

/// Where the parts of a declaration that was read lie inside `s`.
pub open spec fn line_inside(l: Line, s: Seq<u8>, i: int) -> bool {
    l is Found ==> i <= l->Found_name.0 <= l->Found_name.1 <= s.len() && i < l->end <= s.len()
        && 0 <= l->origin_text.0 <= l->origin_text.1 <= s.len() && match l->Found_attr {
        None => true,
        Some(a) => 0 <= a.0 <= a.1 <= s.len(),
    }
}

fn line_exec(s: &[u8], i: usize) -> (r: Result<DeclPos, LinkParseErrorKind>)
    requires
        i <= s@.len(),
    ensures
        line_agrees(r, line_at(s@, i as int)),
        line_inside(line_at(s@, i as int), s@, i as int),
        !(line_at(s@, i as int) is Fatal && line_at(s@, i as int)->kind
            == LinkParseErrorKind::ParseError),
{
    let h = match head_exec(s, i) {
        Some(h) => h,
        None => return Err(LinkParseErrorKind::ParseError),
    };
    let ghost gh = head_at(s@, i as int)->Some_0;
    let (a, b, e, value, pos) = match arg_exec(s, h.body) {
        Ok(t) => t,
        Err(k) => return Err(k),
    };
    let ghost mut g = keep(s@, nothing_seen(), (a as int, b as int), value as int, (e as int, pos as int));
    let none = SeenPos { origin: None, length: None, origin_start: 0, origin_end: 0 };
    let mut seen = keep_exec(s, none, a, b, e, value, pos, Ghost(nothing_seen()));
    let mut j: usize = pos;
    loop
        invariant
            h.body < j <= s@.len(),
            seen_agrees(seen, g),
            seen_inside(g, s@),
            fields_rest(s@, j as int, g) == fields_at(s@, h.body as int),
            gh == head_at(s@, i as int)->Some_0,
            head_at(s@, i as int) is Some,
            head_agrees(Some(h), head_at(s@, i as int)),
            head_inside(head_at(s@, i as int), s@, i as int),
        ensures
            h.body < j <= s@.len(),
            seen_agrees(seen, g),
            seen_inside(g, s@),
            fields_at(s@, h.body as int) == (Fields::Done { seen: g, end: j as int }),
        decreases s@.len() - j,
    {
        let m = skip_spaces_exec(s, j);
        if !(m < s.len() && s[m] == 44u8) {
            break;
        }
        match arg_exec(s, m + 1) {
            Ok((a2, b2, e2, v2, p2)) => {
                let ghost prev = g;
                seen = keep_exec(s, seen, a2, b2, e2, v2, p2, Ghost(prev));
                proof {
                    g = keep(s@, prev, (a2 as int, b2 as int), v2 as int, (e2 as int, p2 as int));
                }
                j = p2;
            },
            Err(LinkParseErrorKind::ParseError) => break,
            Err(k) => return Err(k),
        }
    }
    let end = j;
    match (seen.origin, seen.length) {
        (None, _) => Err(LinkParseErrorKind::MissingOrigin),
        (_, None) => Err(LinkParseErrorKind::MissingLength),
        (Some(origin), Some(length)) => Ok(
            DeclPos {
                name_start: h.name_start,
                name_end: h.name_end,
                attr: h.attr,
                origin,
                origin_start: seen.origin_start,
                origin_end: seen.origin_end,
                length,
                end,
            },
        ),
    }
}

fn region_exec(s: &[u8], i: usize, target: &[u8]) -> (r: Result<DeclPos, LinkParseErrorKind>)
    requires
        i <= s@.len(),
    ensures
        line_agrees(r, region_at(s@, i as int, target@)),
        line_inside(region_at(s@, i as int, target@), s@, i as int),
        !(region_at(s@, i as int, target@) is Fatal && region_at(s@, i as int, target@)->kind
            == LinkParseErrorKind::ParseError),
{
    match head_exec(s, i) {
        None => Err(LinkParseErrorKind::ParseError),
        Some(h) => if same_bytes(s, h.name_start, h.name_end, target) && (h.name_start == 0
            || !is_alnum_exec(s[h.name_start - 1])) {
            line_exec(s, i)
        } else {
            Err(LinkParseErrorKind::ParseError)
        },
    }
}

/// A declaration as handed out: the name, the attribute text, ORIGIN and LENGTH.
pub open spec fn decl_reads(d: (&[u8], Option<&[u8]>, i64, i64), s: Seq<u8>, l: Line) -> bool {
    l is Found && d.0@ == s.subrange(l->Found_name.0, l->Found_name.1) && match l->Found_attr {
        None => d.1 is None,
        Some(a) => d.1 is Some && d.1->Some_0@ == s.subrange(a.0, a.1),
    } && d.2 == l->origin && d.3 == l->length
}

fn decl_exec<'a>(s: &'a [u8], l: &DeclPos, Ghost(g): Ghost<Line>) -> (d: (&'a [u8], Option<&'a [u8]>, i64, i64))
    requires
        line_agrees(Ok(*l), g),
        g is Found,
        line_inside(g, s@, 0),
    ensures
        decl_reads(d, s@, g),
{
    let name = vstd::slice::slice_subrange(s, l.name_start, l.name_end);
    let attr = match l.attr {
        Some((a, b)) => Some(vstd::slice::slice_subrange(s, a, b)),
        None => None,
    };
    (name, attr, l.origin, l.length)
}

/// What the locator hands out for the outcome `found` of the scan: the text
/// after the declaration, and the text before it with the declaration itself.
pub open spec fn located(
    r: Result<(&[u8], (&[u8], (&[u8], Option<&[u8]>, i64, i64))), LinkParseError>,
    s: Seq<u8>,
    found: (int, Line),
) -> bool {
    match found.1 {
        Line::Found { end, .. } => r is Ok && r->Ok_0.0@ == s.subrange(end, s.len() as int)
            && r->Ok_0.1.0@ == s.subrange(0, found.0) && decl_reads(r->Ok_0.1.1, s, found.1),
        Line::NoMatch => r is Err && r->Err_0.kind == LinkParseErrorKind::RegionNotFound,
        Line::Fatal { kind } => r is Err && r->Err_0.kind == kind,
    }
}

/// Finds the first declaration of the memory region `name` in a linker
/// script and tells where it starts and where its parts stand. Text that is
/// no declaration, or declares another region, is passed over; a declaration
/// of `name` without ORIGIN or LENGTH, or with a value that does not fit, is
/// an error.
pub fn locate_region(input: &[u8], name: &[u8]) -> (r: Result<(usize, DeclPos), LinkParseErrorKind>)
    ensures
        ({
            let (i, l) = scan_from(input@, name@, 0);
            match l {
                Line::Found { .. } => r is Ok && r->Ok_0.0 == i && line_agrees(Ok(r->Ok_0.1), l)
                    && line_inside(l, input@, i),
                Line::NoMatch => r == Err::<(usize, DeclPos), _>(LinkParseErrorKind::RegionNotFound),
                Line::Fatal { kind } => r == Err::<(usize, DeclPos), _>(kind),
            }
        }),
{
    let mut i: usize = 0;
    while i < input.len()
        invariant
            i <= input@.len(),
            scan_from(input@, name@, i as int) == scan_from(input@, name@, 0),
        decreases input@.len() - i,
    {
        match region_exec(input, i, name) {
            Err(LinkParseErrorKind::ParseError) => {},
            Err(kind) => return Err(kind),
            Ok(l) => return Ok((i, l)),
        }
        i = i + 1;
    }
    Err(LinkParseErrorKind::RegionNotFound)
}

/// Finds the first declaration of the memory region `name` in a linker
/// script, as `locate_region` does, and hands out the text after it, the
/// text before it, and its name, attribute text, ORIGIN and LENGTH.
pub fn find_memory_def<'a>(input: &'a [u8], name: &[u8]) -> (r: Result<
    (&'a [u8], (&'a [u8], (&'a [u8], Option<&'a [u8]>, i64, i64))),
    LinkParseError,
>)
    ensures
        located(r, input@, scan_from(input@, name@, 0)),
{
    match locate_region(input, name) {
        Err(kind) => Err(LinkParseError { kind }),
        Ok((i, l)) => {
            let ghost g = scan_from(input@, name@, 0).1;
            let d = decl_exec(input, &l, Ghost(g));
            let (before, _) = input.split_at(i);
            let (_, after) = input.split_at(l.end);
            Ok((after, (before, d)))
        },
    }
}

// ---------------------------------------------------------------------------
// The MEMORY block
// ---------------------------------------------------------------------------

/// First position from `i` on where `w` stands in `s`, or -1.
pub open spec fn find_word(s: Seq<u8>, w: Seq<u8>, i: int) -> int
    decreases s.len() + 1 - i,
{
    if !(0 <= i && i + w.len() <= s.len()) {
        -1
    } else if s.subrange(i, i + w.len()) == w {
        i
    } else {
        find_word(s, w, i + 1)
    }
}

/// Outcome of reading the declarations of a block up to its closing brace.
pub enum Block {
    Done { entries: Seq<Line>, end: int },
    Fail { kind: LinkParseErrorKind },
}

pub open spec fn entries_from(s: Seq<u8>, j: int) -> Block
    decreases s.len() - j,
{
    let r = skip_multispace(s, j);
    if at(s, r, 125u8) {
        Block::Done { entries: seq![], end: r + 1 }
    } else {
        match line_at(s, r) {
            Line::Found { end, .. } => if j < end <= s.len() {
                match entries_from(s, end) {
                    Block::Done { entries, end: e } => Block::Done {
                        entries: seq![line_at(s, r)] + entries,
                        end: e,
                    },
                    f => f,
                }
            } else {
                Block::Fail { kind: LinkParseErrorKind::ParseError }
            },
            Line::NoMatch => Block::Fail { kind: LinkParseErrorKind::ParseError },
            Line::Fatal { kind } => Block::Fail { kind },
        }
    }
}

/// `MEMORY { declaration* }`, found after any leading text.
pub open spec fn memory_at(s: Seq<u8>) -> Block {
    let p = find_word(s, memory_word(), 0);
    let q = skip_multispace(s, p + 6);
    if p < 0 {
        Block::Fail { kind: LinkParseErrorKind::ParseError }
    } else if at(s, q, 123u8) {
        entries_from(s, q + 1)
    } else {
        Block::Fail { kind: LinkParseErrorKind::ParseError }
    }
}

pub open spec fn prepend(done: Seq<Line>, b: Block) -> Block {
    match b {
        Block::Done { entries, end } => Block::Done { entries: done + entries, end },
        f => f,
    }
}

/// Reads all declarations of the first `MEMORY { ... }` block.
pub fn memory(input: &[u8]) -> (r: Result<(&[u8], Vec<(&[u8], Option<&[u8]>, i64, i64)>), LinkParseError>)
    ensures
        match memory_at(input@) {
            Block::Done { entries, end } => r is Ok && r->Ok_0.0@ == input@.subrange(
                end,
                input@.len() as int,
            ) && r->Ok_0.1@.len() == entries.len() && forall|k: int|
                0 <= k < entries.len() ==> decl_reads(#[trigger] r->Ok_0.1@[k], input@, entries[k]),
            Block::Fail { kind } => r is Err && r->Err_0.kind == kind,
        },
{
    let s = input;
    let mw: [u8; 6] = [77u8, 69u8, 77u8, 79u8, 82u8, 89u8];
    assert(mw@ =~= memory_word());
    let mut p: usize = 0;
    let mut body: usize = 0;
    loop
        invariant
            p <= s@.len(),
            mw@ == memory_word(),
            s@ == input@,
            find_word(s@, memory_word(), p as int) == find_word(s@, memory_word(), 0),
        ensures
            body == p + 6,
            body <= s@.len(),
            find_word(s@, memory_word(), 0) == p,
        decreases s@.len() - p,
    {
        if s.len() - p < 6 {
            return Err(LinkParseError { kind: LinkParseErrorKind::ParseError });
        }
        if same_bytes(s, p, p + 6, mw.as_slice()) {
            body = p + 6;
            break;
        }
        p = p + 1;
    }
    let q = skip_multispace_exec(s, body);
    if !(q < s.len() && s[q] == 123u8) {
        return Err(LinkParseError { kind: LinkParseErrorKind::ParseError });
    }
    let mut out: Vec<(&[u8], Option<&[u8]>, i64, i64)> = Vec::new();
    let ghost mut done: Seq<Line> = seq![];
    let mut j: usize = q + 1;
    loop
        invariant
            j <= s@.len(),
            s@ == input@,
            prepend(done, entries_from(s@, j as int)) == memory_at(s@),
            out@.len() == done.len(),
            forall|k: int| 0 <= k < done.len() ==> decl_reads(#[trigger] out@[k], s@, done[k]),
        decreases s@.len() - j,
    {
        let r = skip_multispace_exec(s, j);
        if r < s.len() && s[r] == 125u8 {
            let (_, rest) = s.split_at(r + 1);
            assert(entries_from(s@, j as int) == Block::Done { entries: seq![], end: r + 1 });
            assert(done + seq![] =~= done);
            return Ok((rest, out));
        }
        match line_exec(s, r) {
            Ok(l) => {
                let ghost g = line_at(s@, r as int);
                let d = decl_exec(s, &l, Ghost(g));
                out.push(d);
                proof {
                    assert(done + (seq![g] + entries_from_entries(s@, l.end as int))
                        =~= (done + seq![g]) + entries_from_entries(s@, l.end as int));
                    done = done + seq![g];
                }
                j = l.end;
            },
            Err(kind) => {
                assert(entries_from(s@, j as int) == Block::Fail { kind });
                return Err(LinkParseError { kind });
            },
        }
    }
}

// ---------------------------------------------------------------------------
// What the locator guarantees
// ---------------------------------------------------------------------------

/// The scan from `i` stops at the first position where a declaration of
/// `target` starts, and passes over every position before it.
pub proof fn lemma_scan_stops_at_first(s: Seq<u8>, target: Seq<u8>, i: int)
    requires
        0 <= i,
    ensures
        (scan_from(s, target, i).1 is NoMatch) <==> forall|k: int|
            i <= k < s.len() ==> #[trigger] region_at(s, k, target) is NoMatch,
        !(scan_from(s, target, i).1 is NoMatch) ==> {
            let (p, l) = scan_from(s, target, i);
            &&& i <= p < s.len()
            &&& l == region_at(s, p, target)
            &&& forall|k: int| i <= k < p ==> #[trigger] region_at(s, k, target) is NoMatch
        },
    decreases s.len() - i,
{
    if i < s.len() && region_at(s, i, target) is NoMatch {
        lemma_scan_stops_at_first(s, target, i + 1);
        if scan_from(s, target, i + 1).1 is NoMatch {
            assert forall|k: int| i <= k < s.len() implies #[trigger] region_at(s, k, target) is NoMatch by {
                if k > i {
                    assert(region_at(s, k, target) is NoMatch);
                }
            }
        }
    }
}

/// A declaration of another region is never taken for `target`, however
/// well-formed it is.
pub proof fn lemma_other_region_passed_over(s: Seq<u8>, k: int, target: Seq<u8>)
    requires
        head_at(s, k) is Some,
        s.subrange(head_at(s, k)->Some_0.name.0, head_at(s, k)->Some_0.name.1) != target,
    ensures
        region_at(s, k, target) is NoMatch,
{
}

/// The tail of a longer name is never taken for `target`: a name is matched
/// whole.
pub proof fn lemma_name_tail_passed_over(s: Seq<u8>, k: int, target: Seq<u8>)
    requires
        head_at(s, k) is Some,
        !starts_word(s, head_at(s, k)->Some_0.name.0),
    ensures
        region_at(s, k, target) is NoMatch,
{
}

/// The locator reports that the region is not found exactly when no
/// position of the text starts a declaration of it that can be read.
pub proof fn lemma_region_not_found(s: Seq<u8>, target: Seq<u8>)
    ensures
        (scan_from(s, target, 0).1 is NoMatch) <==> forall|k: int|
            0 <= k < s.len() ==> #[trigger] region_at(s, k, target) is NoMatch,
{
    lemma_scan_stops_at_first(s, target, 0);
}

/// The first declaration of `target` in the text decides: if it lacks
/// LENGTH, the locator fails with `MissingLength`, whatever declarations of
/// other regions stand before or after it.
pub proof fn lemma_missing_length_reported(s: Seq<u8>, target: Seq<u8>, p: int)
    requires
        0 <= p < s.len(),
        head_at(s, p) is Some,
        s.subrange(head_at(s, p)->Some_0.name.0, head_at(s, p)->Some_0.name.1) == target,
        starts_word(s, head_at(s, p)->Some_0.name.0),
        line_at(s, p) == (Line::Fatal { kind: LinkParseErrorKind::MissingLength }),
        forall|k: int| 0 <= k < p ==> #[trigger] region_at(s, k, target) is NoMatch,
    ensures
        scan_from(s, target, 0) == (p, Line::Fatal { kind: LinkParseErrorKind::MissingLength }),
{
    lemma_scan_stops_at_first(s, target, 0);
    assert(!(region_at(s, p, target) is NoMatch));
    let (q, l) = scan_from(s, target, 0);
    if q < p {
        assert(region_at(s, q, target) is NoMatch);
    }
    if q > p {
        assert(region_at(s, p, target) is NoMatch);
    }
}

// ---------------------------------------------------------------------------
// What the evaluator computes
// ---------------------------------------------------------------------------

proof fn lemma_ends_bounded(s: Seq<u8>, i: int)
    requires
        0 <= i <= s.len(),
    ensures
        i <= skip_spaces(s, i) <= s.len(),
        i <= hex_end(s, i) <= s.len(),
        i <= dec_end(s, i) <= s.len(),
    decreases s.len() - i,
{
    if i < s.len() {
        lemma_ends_bounded(s, i + 1);
    }
}

proof fn lemma_number_advances(s: Seq<u8>, i: int)
    requires
        0 <= i,
    ensures
        number_at(s, i) is Done ==> i < number_at(s, i)->pos <= s.len(),
    decreases s.len() - i,
{
    if 0 <= i < s.len() {
        if s[i] == 45u8 || s[i] == 43u8 {
            lemma_number_advances(s, i + 1);
        } else if i + 2 < s.len() {
            lemma_ends_bounded(s, i + 2);
        }
        lemma_ends_bounded(s, i + 1);
    }
}

proof fn lemma_term_advances(s: Seq<u8>, i: int)
    requires
        0 <= i,
    ensures
        term_at(s, i) is Done ==> i < term_at(s, i)->pos <= s.len(),
    decreases s.len() - i, 0int,
{
    lemma_number_advances(s, i);
    if at(s, i, 40u8) {
        let k = skip_spaces(s, i + 1);
        if i < k <= s.len() {
            lemma_terms_advances(s, k);
            if terms_at(s, k) is Done {
                lemma_ends_bounded(s, terms_at(s, k)->pos);
            }
        }
    }
    if at(s, i, 45u8) {
        let k = skip_spaces(s, i + 1);
        if i < k <= s.len() {
            lemma_term_advances(s, k);
        }
    }
}

proof fn lemma_terms_advances(s: Seq<u8>, i: int)
    requires
        0 <= i,
    ensures
        terms_at(s, i) is Done ==> i < terms_at(s, i)->pos <= s.len(),
    decreases s.len() - i, 1int,
{
    lemma_term_advances(s, i);
    match term_at(s, i) {
        Parsed::Done { pos, value } => if i < pos <= s.len() {
            lemma_terms_rest_advances(s, pos, value);
        },
        _ => {},
    }
}

proof fn lemma_terms_rest_advances(s: Seq<u8>, j: int, acc: int)
    requires
        0 <= j <= s.len(),
    ensures
        terms_rest(s, j, acc) is Done ==> j <= terms_rest(s, j, acc)->pos <= s.len(),
    decreases s.len() - j, 2int,
{
    let m = skip_spaces(s, j);
    if at(s, m, 43u8) || at(s, m, 45u8) {
        let k = skip_spaces(s, m + 1);
        if j < k <= s.len() {
            match term_at(s, k) {
                Parsed::Done { pos, value } => {
                    let v = if s[m] == 43u8 {
                        acc + value
                    } else {
                        acc - value
                    };
                    if fits_i64(v) && k < pos <= s.len() {
                        lemma_terms_rest_advances(s, pos, v);
                    }
                },
                _ => {},
            }
        }
    }
}

/// A decimal literal is worth its digits read in base 10, a literal after
/// `0x` or `0X` its digits read in base 16; a value that does not fit in 64
/// signed bits is an overflow.
pub proof fn lemma_literal_value(s: Seq<u8>, i: int)
    requires
        0 <= i < s.len(),
        is_dec_digit(s[i]),
    ensures
        (s[i] == 48u8 && (at(s, i + 1, 120u8) || at(s, i + 1, 88u8)) && i + 2 < s.len()
            && is_hex_digit(s[i + 2])) ==> number_at(s, i) == checked(
            hex_end(s, i + 2),
            digits_value(s.subrange(i + 2, hex_end(s, i + 2)), 16),
        ),
        !(s[i] == 48u8 && (at(s, i + 1, 120u8) || at(s, i + 1, 88u8)) && i + 2 < s.len()
            && is_hex_digit(s[i + 2])) ==> number_at(s, i) == checked(
            dec_end(s, i),
            digits_value(s.subrange(i, dec_end(s, i)), 10),
        ),
{
}

/// A `K` or `M` after a number scales it by 1024 or 1024 * 1024 once: the
/// suffix is read and the text after it is left unread, whatever it holds.
/// Without a suffix the number stands as it is.
pub proof fn lemma_suffix_applies_once(s: Seq<u8>, i: int)
    requires
        number_at(s, i) is Done,
    ensures
        ({
            let (p, v) = (number_at(s, i)->pos, number_at(s, i)->value);
            &&& at(s, p, 75u8) ==> suffixed_at(s, i) == checked(p + 1, v * 1024)
            &&& at(s, p, 77u8) ==> suffixed_at(s, i) == checked(p + 1, v * 1048576)
            &&& !at(s, p, 75u8) && !at(s, p, 77u8) ==> suffixed_at(s, i) == (Parsed::Done {
                pos: p,
                value: v,
            })
        }),
{
}

/// A term after `-` is negated.
pub proof fn lemma_negation(s: Seq<u8>, i: int)
    requires
        0 <= i,
        at(s, i, 45u8),
        term_at(s, skip_spaces(s, i + 1)) is Done,
    ensures
        term_at(s, i) == checked(
            term_at(s, skip_spaces(s, i + 1))->pos,
            -term_at(s, skip_spaces(s, i + 1))->value,
        ),
{
    lemma_ends_bounded(s, i + 1);
    let k = skip_spaces(s, i + 1);
    lemma_term_advances(s, k);
}

/// A parenthesised sum is worth the sum inside.
pub proof fn lemma_grouping(s: Seq<u8>, i: int)
    requires
        0 <= i,
        at(s, i, 40u8),
        terms_at(s, skip_spaces(s, i + 1)) is Done,
        at(s, skip_spaces(s, terms_at(s, skip_spaces(s, i + 1))->pos), 41u8),
    ensures
        term_at(s, i) == (Parsed::Done {
            pos: skip_spaces(s, terms_at(s, skip_spaces(s, i + 1))->pos) + 1,
            value: terms_at(s, skip_spaces(s, i + 1))->value,
        }),
{
    lemma_ends_bounded(s, i + 1);
}

/// Sums and differences fold from the left: after the value `acc` so far,
/// an operator and a term give `acc + b` or `acc - b`, and reading goes on
/// from there; a value that does not fit is an overflow.
pub proof fn lemma_fold_step(s: Seq<u8>, j: int, acc: int)
    requires
        0 <= j <= s.len(),
        at(s, skip_spaces(s, j), 43u8) || at(s, skip_spaces(s, j), 45u8),
        term_at(s, skip_spaces(s, skip_spaces(s, j) + 1)) is Done,
    ensures
        ({
            let m = skip_spaces(s, j);
            let t = term_at(s, skip_spaces(s, m + 1));
            let v = if s[m] == 43u8 {
                acc + t->value
            } else {
                acc - t->value
            };
            &&& fits_i64(v) ==> terms_rest(s, j, acc) == terms_rest(s, t->pos, v)
            &&& !fits_i64(v) ==> terms_rest(s, j, acc) == Parsed::Overflow
        }),
{
    lemma_ends_bounded(s, j);
    let m = skip_spaces(s, j);
    lemma_ends_bounded(s, m + 1);
    lemma_term_advances(s, skip_spaces(s, m + 1));
}

/// Reading stops where no operator and term follow, with the value so far.
pub proof fn lemma_fold_end(s: Seq<u8>, j: int, acc: int)
    requires
        0 <= j <= s.len(),
        !(at(s, skip_spaces(s, j), 43u8) || at(s, skip_spaces(s, j), 45u8)) || term_at(
            s,
            skip_spaces(s, skip_spaces(s, j) + 1),
        ) is NoMatch,
    ensures
        terms_rest(s, j, acc) == (Parsed::Done { pos: j, value: acc }),
{
    lemma_ends_bounded(s, j);
    let m = skip_spaces(s, j);
    if at(s, m, 43u8) || at(s, m, 45u8) {
        lemma_ends_bounded(s, m + 1);
    }
}

// ---------------------------------------------------------------------------
// Every value read fits
// ---------------------------------------------------------------------------

proof fn lemma_number_fits(s: Seq<u8>, i: int)
    ensures
        number_at(s, i) is Done ==> fits_i64(number_at(s, i)->value),
    decreases s.len() - i,
{
    if 0 <= i < s.len() && (s[i] == 45u8 || s[i] == 43u8) {
        lemma_number_fits(s, i + 1);
    }
}

proof fn lemma_term_fits(s: Seq<u8>, i: int)
    ensures
        term_at(s, i) is Done ==> fits_i64(term_at(s, i)->value),
    decreases s.len() - i, 0int,
{
    lemma_number_fits(s, i);
    if at(s, i, 40u8) {
        let k = skip_spaces(s, i + 1);
        if i < k <= s.len() {
            lemma_terms_fits(s, k);
        }
    }
    if at(s, i, 45u8) {
        let k = skip_spaces(s, i + 1);
        if i < k <= s.len() {
            lemma_term_fits(s, k);
        }
    }
}

proof fn lemma_terms_fits(s: Seq<u8>, i: int)
    ensures
        terms_at(s, i) is Done ==> fits_i64(terms_at(s, i)->value),
    decreases s.len() - i, 1int,
{
    lemma_term_fits(s, i);
    match term_at(s, i) {
        Parsed::Done { pos, value } => if i < pos <= s.len() {
            lemma_terms_rest_fits(s, pos, value);
        },
        _ => {},
    }
}

proof fn lemma_terms_rest_fits(s: Seq<u8>, j: int, acc: int)
    requires
        fits_i64(acc),
    ensures
        terms_rest(s, j, acc) is Done ==> fits_i64(terms_rest(s, j, acc)->value),
    decreases s.len() - j, 2int,
{
    let m = skip_spaces(s, j);
    if at(s, m, 43u8) || at(s, m, 45u8) {
        let k = skip_spaces(s, m + 1);
        if j < k <= s.len() {
            lemma_term_fits(s, k);
            match term_at(s, k) {
                Parsed::Done { pos, value } => {
                    let v = if s[m] == 43u8 {
                        acc + value
                    } else {
                        acc - value
                    };
                    if fits_i64(v) && k < pos <= s.len() {
                        lemma_terms_rest_fits(s, pos, v);
                    }
                },
                _ => {},
            }
        }
    }
}

/// Each value seen fits, and the recorded ORIGIN text is an expression
/// that, where it stands in `s`, evaluates to ORIGIN.
pub open spec fn seen_fit(s: Seq<u8>, seen: Seen) -> bool {
    (seen.origin is Some ==> fits_i64(seen.origin->Some_0) && terms_at(s, seen.origin_text.0) == (
    Parsed::Done { pos: seen.origin_text.1, value: seen.origin->Some_0 })) && (seen.length is Some
        ==> fits_i64(seen.length->Some_0))
}

proof fn lemma_arg_fits(s: Seq<u8>, j: int)
    ensures
        arg_at(s, j) is Done ==> fits_i64(arg_at(s, j)->value) && terms_at(s, arg_at(s, j)->start)
            == (Parsed::Done { pos: arg_at(s, j)->pos, value: arg_at(s, j)->value }),
{
    let a = skip_spaces(s, j);
    let b = alnum_end(s, a);
    let c = skip_spaces(s, b);
    lemma_terms_fits(s, skip_spaces(s, c + 1));
}

proof fn lemma_fields_rest_fit(s: Seq<u8>, j: int, seen: Seen)
    requires
        seen_fit(s, seen),
    ensures
        fields_rest(s, j, seen) is Done ==> seen_fit(s, fields_rest(s, j, seen)->seen),
    decreases s.len() - j,
{
    let m = skip_spaces(s, j);
    if at(s, m, 44u8) {
        lemma_arg_fits(s, m + 1);
        match arg_at(s, m + 1) {
            Arg::Done { name, start, value, pos } => if j < pos <= s.len() {
                lemma_fields_rest_fit(s, pos, keep(s, seen, name, value, (start, pos)));
            },
            _ => {},
        }
    }
}

/// ORIGIN and LENGTH of a declaration that was read fit in 64 signed bits,
/// and the recorded ORIGIN text evaluates, where it stands, to ORIGIN.
pub proof fn lemma_line_values_fit(s: Seq<u8>, i: int)
    ensures
        line_at(s, i) is Found ==> fits_i64(line_at(s, i)->origin) && fits_i64(
            line_at(s, i)->length,
        ) && terms_at(s, line_at(s, i)->origin_text.0) == (Parsed::Done {
            pos: line_at(s, i)->origin_text.1,
            value: line_at(s, i)->origin,
        }),
{
    match head_at(s, i) {
        Some(h) => {
            lemma_arg_fits(s, h.body);
            match arg_at(s, h.body) {
                Arg::Done { name, start, value, pos } => {
                    lemma_fields_rest_fit(s, pos, keep(s, nothing_seen(), name, value, (start, pos)));
                },
                _ => {},
            }
        },
        None => {},
    }
}

pub open spec fn entries_from_entries(s: Seq<u8>, j: int) -> Seq<Line> {
    match entries_from(s, j) {
        Block::Done { entries, .. } => entries,
        _ => seq![],
    }
}

} // verus!
