//! Reading meshes from the text of a Wavefront-style object file.
//!
//! A line of the form `t a b c` (a tag of at most one character, then three
//! fields of digits, `-`, `.` and `/`, separated by single spaces) is read: tag
//! `v` gives a vertex from three decimal numbers, tag `f` a face from three
//! one-based vertex numbers (each up to its first `/`). Other lines are skipped.
use crate::fixed::{div_floor, floor_div, sat, saturate, ONE};
use crate::model::Model;
use crate::point::{Vec3f, Vertex};
use vstd::arithmetic::div_mod::{lemma_div_is_ordered, lemma_fundamental_div_mod_converse};
use vstd::prelude::*;
use vstd::std_specs::iter::IteratorSpec;

verus! {

/// Integer parts are read up to this value; anything larger saturates anyway.
pub const INT_CAP: u64 = 33554432;

/// Decimal places read after the point.
pub const FRAC_DIGITS: u64 = 9;

/// `10` to the power `FRAC_DIGITS`.
pub const FRAC_SCALE: u64 = 1000000000;

pub open spec fn is_digit(c: char) -> bool {
    '0' <= c && c <= '9'
}

pub open spec fn digit_val(c: char) -> int {
    c as int - '0' as int
}

pub open spec fn all_digits(s: Seq<char>) -> bool {
    forall|i: int| 0 <= i < s.len() ==> is_digit(#[trigger] s[i])
}

/// The number written by the decimal digits `s` (zero when empty).
pub open spec fn digits_val(s: Seq<char>) -> int
    decreases s.len(),
{
    if s.len() == 0 {
        0
    } else {
        digits_val(s.drop_last()) * 10 + digit_val(s.last())
    }
}

pub open spec fn pow10(n: nat) -> int
    decreases n,
{
    if n == 0 {
        1
    } else {
        10 * pow10((n - 1) as nat)
    }
}

/// Index of the first `c` in `s`, or the length of `s` when there is none.
pub open spec fn first_index(s: Seq<char>, c: char) -> nat
    decreases s.len(),
{
    if s.len() == 0 {
        0
    } else if s[0] == c {
        0
    } else {
        1 + first_index(s.drop_first(), c)
    }
}

/// `x / y` rounded to the nearest integer, halves away from zero (for `x >= 0`).
pub open spec fn round_div(x: int, y: int) -> int {
    div_floor(2 * x + y, 2 * y)
}

/// The scalar that a decimal number denotes: an optional `-`, digits, and
/// optionally a point followed by digits, with at least one digit in all. Places
/// past the ninth after the point are ignored; the value is rounded to the
/// nearest scalar and saturated.
pub open spec fn scalar_spec(s: Seq<char>) -> Option<int> {
    let neg = s.len() > 0 && s[0] == '-';
    let body = if neg {
        s.drop_first()
    } else {
        s
    };
    let k = first_index(body, '.');
    let int_part = body.take(k as int);
    let frac = if k < body.len() {
        body.skip(k + 1 as int)
    } else {
        Seq::empty()
    };
    let m = if frac.len() < 9 {
        frac.len()
    } else {
        9
    };
    let scaled = digits_val(int_part) * FRAC_SCALE + digits_val(frac.take(m as int)) * pow10(
        (9 - m) as nat,
    );
    let mag = round_div(scaled * ONE, FRAC_SCALE as int);
    if all_digits(int_part) && all_digits(frac) && int_part.len() + frac.len() >= 1 {
        Some(
            if neg {
                sat(-mag)
            } else {
                sat(mag)
            },
        )
    } else {
        None
    }
}

fn digit(c: char) -> (r: u64)
    requires
        is_digit(c),
    ensures
        r == digit_val(c),
        r <= 9,
{
    (c as u32 - '0' as u32) as u64
}

proof fn lemma_digits_step(s: Seq<char>, a: int, i: int)
    requires
        0 <= a <= i < s.len(),
    ensures
        digits_val(s.subrange(a, i + 1)) == digits_val(s.subrange(a, i)) * 10 + digit_val(s[i]),
{
    assert(s.subrange(a, i + 1).drop_last() =~= s.subrange(a, i));
}

proof fn lemma_digits_nonneg(s: Seq<char>)
    requires
        all_digits(s),
    ensures
        digits_val(s) >= 0,
    decreases s.len(),
{
    if s.len() > 0 {
        assert(all_digits(s.drop_last())) by {
            assert forall|i: int| 0 <= i < s.drop_last().len() implies is_digit(
                #[trigger] s.drop_last()[i],
            ) by {
                assert(s.drop_last()[i] == s[i]);
            }
        }
        lemma_digits_nonneg(s.drop_last());
        assert(is_digit(s[s.len() - 1]));
    }
}

proof fn lemma_first_index(s: Seq<char>, c: char, i: int)
    requires
        0 <= i <= s.len(),
        forall|j: int| 0 <= j < i ==> s[j] != c,
        i == s.len() || s[i] == c,
    ensures
        first_index(s, c) == i,
    decreases i,
{
    if i > 0 {
        assert forall|j: int| 0 <= j < i - 1 implies s.drop_first()[j] != c by {
            assert(s.drop_first()[j] == s[j + 1]);
        }
        if i - 1 < s.drop_first().len() {
            assert(s.drop_first()[i - 1] == s[i]);
        }
        lemma_first_index(s.drop_first(), c, i - 1);
    }
}

proof fn lemma_pow10_bound(n: nat)
    requires
        n <= 9,
    ensures
        1 <= pow10(n) <= FRAC_SCALE,
        pow10(9) == FRAC_SCALE,
{
    reveal_with_fuel(pow10, 10);
}


proof fn lemma_digits_bound(s: Seq<char>)
    requires
        all_digits(s),
    ensures
        0 <= digits_val(s) < pow10(s.len()),
    decreases s.len(),
{
    if s.len() > 0 {
        assert(all_digits(s.drop_last())) by {
            assert forall|i: int| 0 <= i < s.drop_last().len() implies is_digit(
                #[trigger] s.drop_last()[i],
            ) by {
                assert(s.drop_last()[i] == s[i]);
            }
        }
        lemma_digits_bound(s.drop_last());
        assert(is_digit(s[s.len() - 1]));
    }
}

proof fn lemma_first_index_le(s: Seq<char>, c: char)
    ensures
        first_index(s, c) <= s.len(),
    decreases s.len(),
{
    if s.len() > 0 {
        lemma_first_index_le(s.drop_first(), c);
    }
}

proof fn lemma_first_index_ge(s: Seq<char>, c: char, i: int)
    requires
        0 <= i <= s.len(),
        forall|j: int| 0 <= j < i ==> s[j] != c,
    ensures
        first_index(s, c) >= i,
    decreases i,
{
    if i > 0 {
        assert(s[0] != c);
        assert forall|j: int| 0 <= j < i - 1 implies s.drop_first()[j] != c by {
            assert(s.drop_first()[j] == s[j + 1]);
        }
        lemma_first_index_ge(s.drop_first(), c, i - 1);
    }
}

proof fn lemma_cap_step(e: int, d: int, cap: int)
    requires
        e >= 0,
        0 <= d,
        cap >= 0,
    ensures
        (if e < cap { e } else { cap }) * 10 + d < cap ==> e < cap,
        (if (if e < cap { e } else { cap }) * 10 + d < cap {
            (if e < cap { e } else { cap }) * 10 + d
        } else {
            cap
        }) == (if e * 10 + d < cap {
            e * 10 + d
        } else {
            cap
        }),
{
}

proof fn lemma_round_div_big(x: int, y: int, b: int)
    requires
        y > 0,
        x >= b * y,
    ensures
        round_div(x, y) >= b,
{
    assert(2 * b * y <= 2 * x + y && 2 * b * y == b * (2 * y)) by (nonlinear_arith)
        requires
            y > 0,
            x >= b * y,
    ;
    lemma_div_is_ordered(2 * b * y, 2 * x + y, 2 * y);
    lemma_fundamental_div_mod_converse(2 * b * y, 2 * y, b, 0);
}

proof fn lemma_digits_take_step(fs: Seq<char>, m: int)
    requires
        0 <= m < fs.len(),
    ensures
        digits_val(fs.take(m + 1)) == digits_val(fs.take(m)) * 10 + digit_val(fs[m]),
{
    assert(fs.take(m + 1).drop_last() =~= fs.take(m));
}

/// Reads the digits of `f` from `from` on: their count, the first nine of them
/// as a number, and how many that is; `None` unless all are digits.
fn parse_frac(f: &Vec<char>, from: usize) -> (r: Option<(u64, u64, usize)>)
    requires
        from <= f@.len(),
    ensures
        match r {
            Some((fp, m, len)) => {
                let fs = f@.subrange(from as int, f@.len() as int);
                &&& all_digits(fs)
                &&& len == fs.len()
                &&& m == (if fs.len() < 9 {
                    fs.len()
                } else {
                    9
                })
                &&& fp == digits_val(fs.take(m as int))
            },
            None => !all_digits(f@.subrange(from as int, f@.len() as int)),
        },
{
    let ghost fs = f@.subrange(from as int, f@.len() as int);
    let n = f.len();
    let mut i = from;
    let mut fp: u64 = 0;
    let mut m: u64 = 0;
    while i < n
        invariant
            from <= i <= n,
            n == f@.len(),
            fs == f@.subrange(from as int, n as int),
            m == (if i - from < 9 {
                i - from
            } else {
                9
            }),
            forall|j: int| 0 <= j < i - from ==> is_digit(#[trigger] fs[j]),
            fp == digits_val(fs.take(m as int)),
            fp < pow10(m as nat),
        decreases n - i,
    {
        let c = f[i];
        assert(fs[i - from] == c);
        if !('0' <= c && c <= '9') {
            return None;
        }
        let d = digit(c);
        if m < FRAC_DIGITS {
            proof {
                lemma_digits_take_step(fs, m as int);
                lemma_pow10_bound(m as nat);
                assert(pow10(m as nat + 1) == 10 * pow10(m as nat));
            }
            fp = fp * 10 + d;
            m += 1;
        }
        i += 1;
    }
    Some((fp, m, n - from))
}

/// Reads a decimal number as a scalar (see `scalar_spec`).
pub fn parse_scalar(f: &Vec<char>) -> (r: Option<i64>)
    ensures
        match r {
            Some(v) => scalar_spec(f@) == Some(v as int),
            None => scalar_spec(f@) is None,
        },
{
    let n = f.len();
    let neg = n > 0 && f[0] == '-';
    let start: usize = if neg {
        1
    } else {
        0
    };
    let ghost s = f@;
    let ghost body = if neg {
        s.drop_first()
    } else {
        s
    };
    assert(body =~= s.subrange(start as int, n as int));
    let mut i = start;
    let mut ip: u64 = 0;
    while i < n && f[i] != '.'
        invariant
            start <= i <= n,
            n == s.len(),
            s == f@,
            body == s.subrange(start as int, n as int),
            body == (if s.len() > 0 && s[0] == '-' {
                s.drop_first()
            } else {
                s
            }),
            neg == (s.len() > 0 && s[0] == '-'),
            start == (if neg {
                1usize
            } else {
                0usize
            }),
            forall|j: int| start <= j < i ==> s[j] != '.' && is_digit(#[trigger] s[j]),
            all_digits(s.subrange(start as int, i as int)),
            ip == (if digits_val(s.subrange(start as int, i as int)) < INT_CAP {
                digits_val(s.subrange(start as int, i as int))
            } else {
                INT_CAP as int
            }),
        decreases n - i,
    {
        let c = f[i];
        if !('0' <= c && c <= '9') {
            proof {
                assert forall|j: int| 0 <= j <= i - start implies body[j] != '.' by {
                    assert(body[j] == s[j + start]);
                }
                lemma_first_index_ge(body, '.', i - start + 1);
                lemma_first_index_le(body, '.');
                assert(body[i - start] == c);
                assert(body.take(first_index(body, '.') as int)[i - start] == c);
                assert(!is_digit(c));
                assert(!all_digits(body.take(first_index(body, '.') as int)));
            }
            return None;
        }
        let d = digit(c);
        proof {
            lemma_digits_step(s, start as int, i as int);
            lemma_digits_nonneg(s.subrange(start as int, i as int));
            lemma_cap_step(digits_val(s.subrange(start as int, i as int)), d as int, INT_CAP as int);
            assert(all_digits(s.subrange(start as int, i + 1))) by {
                assert forall|j: int| 0 <= j < i + 1 - start implies is_digit(
                    #[trigger] s.subrange(start as int, i + 1)[j],
                ) by {
                    assert(s.subrange(start as int, i + 1)[j] == s[j + start]);
                }
            }
        }
        let t = ip * 10 + d;
        ip = if t < INT_CAP {
            t
        } else {
            INT_CAP
        };
        i += 1;
    }
    let ghost k = i - start;
    proof {
        assert forall|j: int| 0 <= j < k implies body[j] != '.' by {
            assert(body[j] == s[j + start]);
        }
        if i < n {
            assert(body[k] == s[i as int]);
        }
        lemma_first_index(body, '.', k);
        assert(body.take(k) =~= s.subrange(start as int, i as int));
    }
    let int_len = i - start;
    let ghost fs = if i < n {
        s.subrange(i + 1, n as int)
    } else {
        Seq::<char>::empty()
    };
    let (fp0, m, frac_len) = if i < n {
        proof {
            assert(body.skip(k + 1) =~= s.subrange(i + 1, n as int));
        }
        match parse_frac(f, i + 1) {
            Some(r) => r,
            None => {
                return None;
            },
        }
    } else {
        proof {
            assert(fs.take(0) =~= Seq::<char>::empty());
        }
        (0, 0, 0)
    };
    let mut fp = fp0;
    if int_len + frac_len == 0 {
        return None;
    }
    proof {
        assert(fs.take(m as int) =~= fs.subrange(0, m as int));
        assert(all_digits(fs.take(m as int))) by {
            assert forall|j: int| 0 <= j < m implies is_digit(#[trigger] fs.take(m as int)[j]) by {
                assert(fs.take(m as int)[j] == fs[j]);
            }
        }
        lemma_digits_bound(fs.take(m as int));
        lemma_pow10_bound(m as nat);
    }
    let ghost base = fp as int;
    let mut j = m;
    while j < FRAC_DIGITS
        invariant
            m <= j <= FRAC_DIGITS,
            0 <= base < pow10(m as nat),
            fp == base * pow10((j - m) as nat),
            pow10(j as nat) == pow10(m as nat) * pow10((j - m) as nat),
            pow10(9) == FRAC_SCALE,
            fp < pow10(j as nat),
        decreases FRAC_DIGITS - j,
    {
        proof {
            lemma_pow10_bound(j as nat + 1);
            assert(pow10((j + 1) as nat) == 10 * pow10(j as nat));
            assert(pow10((j + 1 - m) as nat) == 10 * pow10((j - m) as nat));
            assert(pow10(m as nat) * (10 * pow10((j - m) as nat)) == 10 * (pow10(m as nat) * pow10(
                (j - m) as nat,
            ))) by (nonlinear_arith);
            assert(base * (10 * pow10((j - m) as nat)) == 10 * (base * pow10((j - m) as nat)))
                by (nonlinear_arith);
        }
        fp = fp * 10;
        j += 1;
    }
    let scale = FRAC_SCALE as i128;
    let scaled = ip as i128 * scale + fp as i128;
    let ghost exact = digits_val(s.subrange(start as int, (start + int_len) as int)) * FRAC_SCALE
        + digits_val(fs.take(m as int)) * pow10((9 - m) as nat);
    let q = floor_div(2 * scaled * ONE as i128 + scale, 2 * scale);
    let v = if neg {
        -q
    } else {
        q
    };
    proof {
        let dv = digits_val(s.subrange(start as int, (start + int_len) as int));
        lemma_digits_nonneg(s.subrange(start as int, (start + int_len) as int));
        if dv >= INT_CAP {
            lemma_round_div_big(scaled * ONE, FRAC_SCALE as int, INT_CAP * ONE);
            lemma_round_div_big(exact * ONE, FRAC_SCALE as int, INT_CAP * ONE);
        } else {
            assert(scaled == exact);
        }
    }
    Some(saturate(v))
}


/// A vertex number: the digits up to the first `/`, at least one of them, one-based
/// and within `usize`; the result is zero-based.
pub open spec fn index_spec(f: Seq<char>) -> Option<int> {
    let p = f.take(first_index(f, '/') as int);
    if p.len() >= 1 && all_digits(p) && 1 <= digits_val(p) <= usize::MAX {
        Some(digits_val(p) - 1)
    } else {
        None
    }
}

/// Reads a one-based vertex number as a zero-based index (see `index_spec`).
pub fn parse_index(f: &Vec<char>) -> (r: Option<usize>)
    ensures
        match r {
            Some(v) => index_spec(f@) == Some(v as int),
            None => index_spec(f@) is None,
        },
{
    let ghost s = f@;
    let cap: u128 = 0x1_0000_0000_0000_0000;
    let n = f.len();
    let mut i: usize = 0;
    let mut v: u128 = 0;
    while i < n && f[i] != '/'
        invariant
            i <= n,
            n == s.len(),
            s == f@,
            cap == 0x1_0000_0000_0000_0000u128,
            v <= cap,
            forall|j: int| 0 <= j < i ==> s[j] != '/' && is_digit(#[trigger] s[j]),
            all_digits(s.subrange(0, i as int)),
            v == (if digits_val(s.subrange(0, i as int)) < cap {
                digits_val(s.subrange(0, i as int))
            } else {
                cap as int
            }),
        decreases n - i,
    {
        let c = f[i];
        if !('0' <= c && c <= '9') {
            proof {
                lemma_first_index_ge(s, '/', i + 1);
                lemma_first_index_le(s, '/');
                assert(s.take(first_index(s, '/') as int)[i as int] == c);
                assert(!all_digits(s.take(first_index(s, '/') as int)));
            }
            return None;
        }
        let d = digit(c);
        proof {
            lemma_digits_step(s, 0, i as int);
            lemma_digits_nonneg(s.subrange(0, i as int));
            lemma_cap_step(digits_val(s.subrange(0, i as int)), d as int, cap as int);
            assert(all_digits(s.subrange(0, i + 1))) by {
                assert forall|j: int| 0 <= j < i + 1 implies is_digit(
                    #[trigger] s.subrange(0, i + 1)[j],
                ) by {
                    assert(s.subrange(0, i + 1)[j] == s[j]);
                }
            }
        }
        let t = v * 10 + d as u128;
        v = if t < cap {
            t
        } else {
            cap
        };
        i += 1;
    }
    proof {
        lemma_first_index(s, '/', i as int);
        assert(s.take(i as int) =~= s.subrange(0, i as int));
    }
    if i == 0 || v == 0 || v > usize::MAX as u128 {
        return None;
    }
    Some((v - 1) as usize)
}

/// Whether `c` may stand in a numeric field: a digit, `-`, `.` or `/`.
pub open spec fn is_field_char(c: char) -> bool {
    is_digit(c) || c == '-' || c == '.' || c == '/'
}

pub open spec fn is_field(s: Seq<char>) -> bool {
    s.len() > 0 && forall|i: int| 0 <= i < s.len() ==> is_field_char(#[trigger] s[i])
}

/// Whether `line` is the tag `t` (at most one character, not a line feed) and
/// the fields `a`, `b`, `c`, separated by single spaces.
pub open spec fn splits_as(
    line: Seq<char>,
    t: Seq<char>,
    a: Seq<char>,
    b: Seq<char>,
    c: Seq<char>,
) -> bool {
    &&& t.len() <= 1
    &&& t.len() == 1 ==> t[0] != '\n'
    &&& is_field(a)
    &&& is_field(b)
    &&& is_field(c)
    &&& line == t + seq![' '] + a + seq![' '] + b + seq![' '] + c
}

/// The tag and fields of a line, if it has that shape. Fields hold no space, so
/// the split is unique.
pub open spec fn line_fields_spec(line: Seq<char>) -> Option<
    (Seq<char>, Seq<char>, Seq<char>, Seq<char>),
> {
    if exists|t: Seq<char>, a: Seq<char>, b: Seq<char>, c: Seq<char>| splits_as(line, t, a, b, c) {
        Some(
            choose|t: Seq<char>, a: Seq<char>, b: Seq<char>, c: Seq<char>|
                splits_as(line, t, a, b, c),
        )
    } else {
        None
    }
}

/// Relies on regex::Regex::new, on a constant pattern that it accepts, and on
/// regex::Regex::captures with that pattern,
/// `^(.?) ([-.0-9/]+) ([-.0-9/]+) ([-.0-9/]+)$` (where `.` is any character but
/// a line feed): a line matches exactly when it splits as `splits_as` says, and
/// the four groups are then its tag and fields.
#[verifier::external_body]
fn line_fields(line: &Vec<char>) -> (r: Option<(Vec<char>, Vec<char>, Vec<char>, Vec<char>)>)
    ensures
        match r {
            Some(f) => line_fields_spec(line@) == Some((f.0@, f.1@, f.2@, f.3@)),
            None => line_fields_spec(line@) is None,
        },
{
    let text: String = line.iter().collect();
    let re = regex::Regex::new(r"^(.?) ([-.0-9/]+) ([-.0-9/]+) ([-.0-9/]+)$").unwrap();
    match re.captures(&text) {
        Some(c) => Some((
            c[1].chars().collect(),
            c[2].chars().collect(),
            c[3].chars().collect(),
            c[4].chars().collect(),
        )),
        None => None,
    }
}


/// The characters of `s`, in order.
fn chars_of(s: &str) -> (r: Vec<char>)
    ensures
        r@ == s@,
{
    let mut it = s.chars();
    let mut v: Vec<char> = Vec::new();
    proof {
        broadcast use vstd::string::group_string_axioms;

        assert(it.remaining() == s@);
    }
    loop
        invariant
            v@ + it.remaining() == s@,
            it.obeys_prophetic_iter_laws(),
        decreases s@.len() - v@.len(),
    {
        let ghost before = it.remaining();
        match it.next() {
            Some(c) => {
                v.push(c);
                assert(v@ + it.remaining() =~= s@) by {
                    assert(before =~= seq![c] + before.drop_first());
                }
            },
            None => {
                assert(v@ =~= s@);
                return v;
            },
        }
    }
}


/// A line without its carriage return, if it ends in one.
pub open spec fn strip_cr(s: Seq<char>) -> Seq<char> {
    if s.len() > 0 && s.last() == '\r' {
        s.drop_last()
    } else {
        s
    }
}

/// The finished lines and the unfinished last one after reading `text`.
pub open spec fn lines_acc(text: Seq<char>) -> (Seq<Seq<char>>, Seq<char>)
    decreases text.len(),
{
    if text.len() == 0 {
        (Seq::empty(), Seq::empty())
    } else {
        let (done, cur) = lines_acc(text.drop_last());
        if text.last() == '\n' {
            (done.push(strip_cr(cur)), Seq::empty())
        } else {
            (done, cur.push(text.last()))
        }
    }
}

/// The lines of `text`: split at line feeds, dropping a carriage return before
/// a line feed; nothing after the last line feed is no line.
pub open spec fn split_lines(text: Seq<char>) -> Seq<Seq<char>> {
    let (done, cur) = lines_acc(text);
    if cur.len() > 0 {
        done.push(cur)
    } else {
        done
    }
}

/// Vertices and faces read so far.
pub type Mesh = (Seq<Vertex>, Seq<(usize, usize, usize)>);

/// One line read into `m`: `None` where a `v` or `f` line has a field that does
/// not read.
pub open spec fn read_line(m: Mesh, line: Seq<char>) -> Option<Mesh> {
    match line_fields_spec(line) {
        None => Some(m),
        Some(f) => {
            if f.0 == seq!['v'] {
                let (x, y, z) = (scalar_spec(f.1), scalar_spec(f.2), scalar_spec(f.3));
                if x is Some && y is Some && z is Some {
                    let p = Vec3f { x: x->0 as i64, y: y->0 as i64, z: z->0 as i64 };
                    Some((m.0.push(Vertex { p, c: Vec3f { x: ONE, y: ONE, z: ONE } }), m.1))
                } else {
                    None
                }
            } else if f.0 == seq!['f'] {
                let (i, j, k) = (index_spec(f.1), index_spec(f.2), index_spec(f.3));
                if i is Some && j is Some && k is Some {
                    Some((m.0, m.1.push((i->0 as usize, j->0 as usize, k->0 as usize))))
                } else {
                    None
                }
            } else {
                Some(m)
            }
        },
    }
}

pub open spec fn read_lines(lines: Seq<Seq<char>>) -> Option<Mesh>
    decreases lines.len(),
{
    if lines.len() == 0 {
        Some((Seq::empty(), Seq::empty()))
    } else {
        match read_lines(lines.drop_last()) {
            Some(m) => read_line(m, lines.last()),
            None => None,
        }
    }
}

/// The mesh that the text of an object file describes, line by line.
pub open spec fn obj_spec(text: Seq<char>) -> Option<Mesh> {
    read_lines(split_lines(text))
}

fn read_line_into(model: &mut Model, line: &Vec<char>) -> (ok: bool)
    ensures
        ok ==> read_line((old(model).verts@, old(model).faces@), line@) == Some(
            (final(model).verts@, final(model).faces@),
        ),
        !ok ==> read_line((old(model).verts@, old(model).faces@), line@) is None,
{
    match line_fields(line) {
        None => true,
        Some((t, a, b, c)) => {
            if t.len() == 1 && t[0] == 'v' {
                assert(t@ =~= seq!['v']);
                let x = parse_scalar(&a);
                let y = parse_scalar(&b);
                let z = parse_scalar(&c);
                match (x, y, z) {
                    (Some(x), Some(y), Some(z)) => {
                        model.verts.push(Vertex::new(x, y, z));
                        true
                    },
                    _ => false,
                }
            } else if t.len() == 1 && t[0] == 'f' {
                assert(t@ =~= seq!['f']);
                assert(t@ != seq!['v']);
                let i = parse_index(&a);
                let j = parse_index(&b);
                let k = parse_index(&c);
                match (i, j, k) {
                    (Some(i), Some(j), Some(k)) => {
                        model.faces.push((i, j, k));
                        true
                    },
                    _ => false,
                }
            } else {
                assert(t@ != seq!['v']) by {
                    if t@.len() == 1 {
                        assert(t@[0] != seq!['v'][0]);
                    }
                }
                assert(t@ != seq!['f']) by {
                    if t@.len() == 1 {
                        assert(t@[0] != seq!['f'][0]);
                    }
                }
                true
            }
        },
    }
}

impl Model {
    /// Reads the mesh that the text of an object file describes (see `obj_spec`);
    /// `None` where a vertex or face line has a field that does not read.
    pub fn parse_obj(text: &str) -> (r: Option<Model>)
        ensures
            match r {
                Some(m) => obj_spec(text@) == Some((m.verts@, m.faces@)),
                None => obj_spec(text@) is None,
            },
    {
        let cs = chars_of(text);
        let mut model = Model::new();
        let mut failed = false;
        let mut cur: Vec<char> = Vec::new();
        let ghost mut done: Seq<Seq<char>> = Seq::empty();
        let mut i: usize = 0;
        assert(cs@.take(0) =~= Seq::<char>::empty());
        while i < cs.len()
            invariant
                i <= cs@.len(),
                cs@ == text@,
                lines_acc(cs@.take(i as int)) == (done, cur@),
                !failed ==> read_lines(done) == Some((model.verts@, model.faces@)),
                failed ==> read_lines(done) is None,
            decreases cs@.len() - i,
        {
            let c = cs[i];
            assert(cs@.take(i + 1).drop_last() =~= cs@.take(i as int));
            if c == '\n' {
                let ghost whole = cur@;
                if cur.len() > 0 && cur[cur.len() - 1] == '\r' {
                    cur.pop();
                    assert(cur@ =~= whole.drop_last());
                }
                assert(cur@ == strip_cr(whole));
                if !failed {
                    if !read_line_into(&mut model, &cur) {
                        failed = true;
                    }
                }
                proof {
                    let before = done;
                    done = done.push(cur@);
                    assert(done.drop_last() =~= before);
                }
                cur = Vec::new();
            } else {
                cur.push(c);
            }
            i += 1;
        }
        assert(cs@.take(i as int) =~= cs@);
        if cur.len() > 0 {
            if !failed {
                if !read_line_into(&mut model, &cur) {
                    failed = true;
                }
            }
            proof {
                let before = done;
                done = done.push(cur@);
                assert(done.drop_last() =~= before);
            }
        }
        if failed {
            None
        } else {
            Some(model)
        }
    }
}

} // verus!
