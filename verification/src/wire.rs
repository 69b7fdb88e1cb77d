//! The JSON wire schema of the control channel.
//!
//! Control frames between agent and proxy, and the proxy's registration,
//! are small JSON objects of a fixed shape. The encoders here emit one
//! canonical byte form for each message, and the parsers accept exactly
//! those forms, so that a message encoded on one end is read back intact
//! on the other. Strings are escaped as JSON asks: `"` and `\` with a
//! backslash, control bytes as a lowercase `\u00` sequence.

use vstd::prelude::*;

verus! {

// ---------------------------------------------------------------------
// Decimal numbers
// ---------------------------------------------------------------------
/// The decimal digits of `n`, most significant first, no leading zeros.
pub open spec fn dec_digits(n: nat) -> Seq<u8>
    decreases n,
{
    if n < 10 {
        seq![(48 + n) as u8]
    } else {
        dec_digits(n / 10).push((48 + n % 10) as u8)
    }
}

pub open spec fn is_digit(b: u8) -> bool {
    48 <= b <= 57
}

/// The numeric value of a digit string, most significant first.
pub open spec fn digits_val(d: Seq<u8>) -> nat
    decreases d.len(),
{
    if d.len() == 0 {
        0
    } else {
        digits_val(d.drop_last()) * 10 + (if is_digit(d.last()) {
            (d.last() - 48) as nat
        } else {
            0
        })
    }
}

/// Length of the leading run of digits.
pub open spec fn digit_run_len(b: Seq<u8>) -> int
    decreases b.len(),
{
    if b.len() > 0 && is_digit(b[0]) {
        1 + digit_run_len(b.drop_first())
    } else {
        0
    }
}

/// Parse a decimal number of at most ten digits and value at most `max`;
/// returns the value and the rest of the input.
pub open spec fn parse_number(b: Seq<u8>, max: nat) -> Option<(nat, Seq<u8>)> {
    let k = digit_run_len(b);
    if 1 <= k <= 10 && digits_val(b.take(k)) <= max {
        Some((digits_val(b.take(k)), b.skip(k)))
    } else {
        None
    }
}

/// `10^k`.
pub open spec fn pow10(k: int) -> nat
    decreases k,
{
    if k <= 0 {
        1
    } else {
        10 * pow10(k - 1)
    }
}

pub proof fn lemma_dec_digits_are_digits(n: nat)
    ensures
        forall|i: int| 0 <= i < dec_digits(n).len() ==> is_digit(#[trigger] dec_digits(n)[i]),
        dec_digits(n).len() >= 1,
    decreases n,
{
    if n >= 10 {
        lemma_dec_digits_are_digits(n / 10);
    }
}

pub proof fn lemma_dec_digits_val(n: nat)
    ensures
        digits_val(dec_digits(n)) == n,
    decreases n,
{
    if n < 10 {
        assert(dec_digits(n) == seq![(48 + n) as u8]);
        assert(dec_digits(n).drop_last() =~= Seq::<u8>::empty());
        assert(digits_val(Seq::<u8>::empty()) == 0);
        assert(is_digit(dec_digits(n).last()));
    } else {
        lemma_dec_digits_val(n / 10);
        assert(dec_digits(n).drop_last() =~= dec_digits(n / 10));
        assert(dec_digits(n).last() == (48 + n % 10) as u8);
    }
}

pub proof fn lemma_dec_digits_len(n: nat, k: int)
    requires
        k >= 1,
        n < pow10(k),
    ensures
        dec_digits(n).len() <= k,
    decreases k,
{
    if n >= 10 {
        assert(pow10(k) == 10 * pow10(k - 1));
        assert(n / 10 < pow10(k - 1));
        lemma_dec_digits_len(n / 10, k - 1);
    }
}

pub proof fn lemma_digits_val_bound(d: Seq<u8>)
    ensures
        digits_val(d) < pow10(d.len() as int),
    decreases d.len(),
{
    if d.len() == 0 {
    } else {
        lemma_digits_val_bound(d.drop_last());
        assert(pow10(d.len() as int) == 10 * pow10(d.len() - 1));
    }
}

/// A run of digits followed by a non-digit (or the end) is the whole
/// leading digit run.
pub proof fn lemma_digit_run_of(d: Seq<u8>, r: Seq<u8>)
    requires
        forall|i: int| 0 <= i < d.len() ==> is_digit(#[trigger] d[i]),
        r.len() == 0 || !is_digit(r[0]),
    ensures
        digit_run_len(d + r) == d.len(),
    decreases d.len(),
{
    if d.len() == 0 {
        assert(d + r =~= r);
    } else {
        assert((d + r).drop_first() =~= d.drop_first() + r);
        lemma_digit_run_of(d.drop_first(), r);
    }
}

/// The canonical digits of `n` followed by a non-digit parse back to `n`.
pub proof fn lemma_parse_number_round_trip(n: nat, r: Seq<u8>, max: nat)
    requires
        n <= max,
        n < pow10(10),
        r.len() == 0 || !is_digit(r[0]),
    ensures
        parse_number(dec_digits(n) + r, max) == Some((n, r)),
{
    let d = dec_digits(n);
    lemma_dec_digits_are_digits(n);
    lemma_dec_digits_val(n);
    lemma_dec_digits_len(n, 10);
    lemma_digit_run_of(d, r);
    assert((d + r).take(d.len() as int) =~= d);
    assert((d + r).skip(d.len() as int) =~= r);
}

/// Append the decimal digits of `n`.
pub fn push_dec(out: &mut Vec<u8>, n: u32)
    ensures
        final(out)@ == old(out)@ + dec_digits(n as nat),
    decreases n,
{
    if n >= 10 {
        push_dec(out, n / 10);
        out.push(48 + (n % 10) as u8);
        proof {
            assert(out@ =~= old(out)@ + dec_digits(n as nat));
        }
    } else {
        out.push(48 + n as u8);
        proof {
            assert(out@ =~= old(out)@ + dec_digits(n as nat));
        }
    }
}

/// Parse a decimal number starting at `i`, of value at most `max`.
/// Mirrors [`parse_number`] on the bytes from `i` on.
pub fn parse_dec(b: &Vec<u8>, i: usize, max: u32) -> (r: Option<(u32, usize)>)
    requires
        i <= b@.len(),
    ensures
        parse_number(b@.skip(i as int), max as nat) is None ==> r is None,
        parse_number(b@.skip(i as int), max as nat) matches Some((v, rest)) ==> (r matches Some(
            (rv, j),
        ) && rv == v && i <= j <= b@.len() && b@.skip(j as int) == rest),
    {
        let ghost s = b@.skip(i as int);
        let n = b.len();
        let mut j: usize = i;
        while j < n && is_digit_exec(b[j])
            invariant
                i <= j <= n,
                n == b@.len(),
                forall|m: int| i <= m < j ==> is_digit(#[trigger] b@[m]),
            decreases n - j,
        {
            j = j + 1;
        }
        proof {
            assert(s =~= b@.subrange(i as int, j as int) + b@.skip(j as int));
            lemma_digit_run_of(b@.subrange(i as int, j as int), b@.skip(j as int));
            assert(digit_run_len(s) == j - i);
        }
        if j == i || j - i > 10 {
            return None;
        }
        // value of the run, in u64 so ten digits always fit
        let mut acc: u64 = 0;
        let mut t: usize = i;
        proof {
            lemma_pow10_pos(10);
            assert(b@.subrange(i as int, i as int) =~= Seq::<u8>::empty());
            assert(digits_val(Seq::<u8>::empty()) == 0);
        }
        while t < j
            invariant
                i <= t <= j <= n,
                n == b@.len(),
                j - i <= 10,
                forall|m: int| i <= m < j ==> is_digit(#[trigger] b@[m]),
                acc == digits_val(b@.subrange(i as int, t as int)),
                acc < pow10(10),
            decreases j - t,
        {
            proof {
                reveal_with_fuel(pow10, 11);
                assert(pow10(10) == 10_000_000_000);
                lemma_digits_val_bound(b@.subrange(i as int, t + 1));
                assert(b@.subrange(i as int, t + 1).drop_last() =~= b@.subrange(
                    i as int,
                    t as int,
                ));
                assert(b@.subrange(i as int, t + 1).last() == b@[t as int]);
                lemma_pow10_le(t + 1 - i, 10);
            }
            acc = acc * 10 + (b[t] - 48) as u64;
            t = t + 1;
        }
        proof {
            assert(b@.subrange(i as int, j as int) =~= s.take(j - i));
        }
        if acc > max as u64 {
            return None;
        }
        proof {
            assert(s.skip(j - i) =~= b@.skip(j as int));
        }
        Some((acc as u32, j))
    }

/// Exec mirror of [`is_digit`].
fn is_digit_exec(b: u8) -> (r: bool)
    ensures
        r == is_digit(b),
{
    48 <= b && b <= 57
}

proof fn lemma_pow10_le(a: int, c: int)
    requires
        0 <= a <= c,
    ensures
        pow10(a) <= pow10(c),
    decreases c,
{
    if a < c {
        lemma_pow10_le(a, c - 1);
        lemma_pow10_pos(c - 1);
    }
}

proof fn lemma_pow10_pos(k: int)
    ensures
        pow10(k) >= 1,
    decreases k,
{
    if k > 0 {
        lemma_pow10_pos(k - 1);
    }
}


// ---------------------------------------------------------------------
// JSON strings
// ---------------------------------------------------------------------
/// Lowercase hex digit for a value below 16.
pub open spec fn hex_digit(d: u8) -> u8
    recommends
        d < 16,
{
    if d < 10 {
        (48 + d) as u8
    } else {
        (87 + d) as u8
    }
}

pub open spec fn is_hex(b: u8) -> bool {
    is_digit(b) || (97 <= b <= 102)
}

pub open spec fn hex_val(b: u8) -> u8
    recommends
        is_hex(b),
{
    if is_digit(b) {
        (b - 48) as u8
    } else {
        (b - 87) as u8
    }
}

/// The JSON escape of one byte of string content.
pub open spec fn esc_byte(b: u8) -> Seq<u8> {
    if b == 34 {
        seq![92u8, 34u8]
    } else if b == 92 {
        seq![92u8, 92u8]
    } else if b < 32 {
        seq![92u8, 117u8, 48u8, 48u8, hex_digit(b / 16), hex_digit(b % 16)]
    } else {
        seq![b]
    }
}

/// The escaped form of a whole string content.
pub open spec fn esc_bytes(s: Seq<u8>) -> Seq<u8>
    decreases s.len(),
{
    if s.len() == 0 {
        seq![]
    } else {
        esc_byte(s[0]) + esc_bytes(s.drop_first())
    }
}

/// A JSON string: quote, escaped content, quote.
pub open spec fn json_string(s: Seq<u8>) -> Seq<u8> {
    seq![34u8] + esc_bytes(s) + seq![34u8]
}

pub proof fn lemma_esc_bytes_push(s: Seq<u8>, x: u8)
    ensures
        esc_bytes(s.push(x)) == esc_bytes(s) + esc_byte(x),
    decreases s.len(),
{
    let p = s.push(x);
    if s.len() == 0 {
        assert(p.drop_first() =~= Seq::<u8>::empty());
        assert(p[0] == x);
        assert(esc_bytes(Seq::<u8>::empty()) =~= Seq::<u8>::empty());
        assert(esc_bytes(p) =~= esc_byte(x));
        assert(esc_bytes(s) + esc_byte(x) =~= esc_byte(x));
    } else {
        assert(p.drop_first() =~= s.drop_first().push(x));
        lemma_esc_bytes_push(s.drop_first(), x);
        assert(p[0] == s[0]);
        assert(esc_bytes(p) == esc_byte(s[0]) + (esc_bytes(s.drop_first()) + esc_byte(x)));
        assert(esc_byte(s[0]) + (esc_bytes(s.drop_first()) + esc_byte(x)) =~= (esc_byte(s[0])
            + esc_bytes(s.drop_first())) + esc_byte(x));
    }
}

/// Prefix a parsed string fragment with already-read content.
pub open spec fn prepend(c: Seq<u8>, o: Option<(Seq<u8>, Seq<u8>)>) -> Option<(Seq<u8>, Seq<u8>)> {
    match o {
        Some((s, r)) => Some((c + s, r)),
        None => None,
    }
}

/// One parsed byte in front of a parsed string fragment.
pub open spec fn cons_parsed(x: u8, o: Option<(Seq<u8>, Seq<u8>)>) -> Option<(Seq<u8>, Seq<u8>)> {
    match o {
        Some((s, r)) => Some((seq![x] + s, r)),
        None => None,
    }
}

proof fn lemma_prepend_cons(c: Seq<u8>, x: u8, o: Option<(Seq<u8>, Seq<u8>)>)
    ensures
        prepend(c, cons_parsed(x, o)) == prepend(c.push(x), o),
{
    match o {
        Some((s, r)) => {
            assert(c + (seq![x] + s) =~= c.push(x) + s);
        },
        None => {
        },
    }
}

/// Parse JSON string content up to the closing quote: the content bytes
/// and what follows the quote. The opening quote is already consumed.
/// Exactly the escapes the encoder emits are accepted.
pub open spec fn parse_string_body(b: Seq<u8>) -> Option<(Seq<u8>, Seq<u8>)>
    decreases b.len(),
{
    if b.len() == 0 {
        None
    } else if b[0] == 34 {
        Some((seq![], b.skip(1)))
    } else if b[0] == 92 {
        if b.len() >= 2 && b[1] == 34 {
            cons_parsed(34, parse_string_body(b.skip(2)))
        } else if b.len() >= 2 && b[1] == 92 {
            cons_parsed(92, parse_string_body(b.skip(2)))
        } else if b.len() >= 6 && b[1] == 117 && b[2] == 48 && b[3] == 48 && is_hex(b[4])
            && is_hex(b[5]) && 16 * hex_val(b[4]) + hex_val(b[5]) < 32 {
            cons_parsed((16 * hex_val(b[4]) + hex_val(b[5])) as u8, parse_string_body(b.skip(6)))
        } else {
            None
        }
    } else if b[0] < 32 {
        None
    } else {
        cons_parsed(b[0], parse_string_body(b.skip(1)))
    }
}

proof fn lemma_hex_of(d: u8)
    requires
        d < 16,
    ensures
        is_hex(hex_digit(d)),
        hex_val(hex_digit(d)) == d,
{
}

/// Escaping is inverted exactly by the string parser: the escaped content,
/// a closing quote and anything after parse back to the content and that
/// remainder, for every byte string.
pub proof fn lemma_parse_string_round_trip(s: Seq<u8>, rest: Seq<u8>)
    ensures
        parse_string_body(esc_bytes(s) + seq![34u8] + rest) == Some((s, rest)),
    decreases s.len(),
{
    let b = esc_bytes(s) + seq![34u8] + rest;
    if s.len() == 0 {
        assert(esc_bytes(s) =~= Seq::<u8>::empty());
        assert(b =~= seq![34u8] + rest);
        assert(b[0] == 34);
        assert(b.skip(1) =~= rest);
        assert(s =~= Seq::<u8>::empty());
    } else {
        let x = s[0];
        let e = esc_byte(x);
        let tail_b = esc_bytes(s.drop_first()) + seq![34u8] + rest;
        assert(esc_bytes(s) == e + esc_bytes(s.drop_first()));
        assert(b =~= e + tail_b);
        lemma_parse_string_round_trip(s.drop_first(), rest);
        assert(seq![x] + s.drop_first() =~= s);
        if x == 34 {
            assert(b.len() >= 2 && b[0] == 92 && b[1] == 34);
            assert(b.skip(2) =~= tail_b);
        } else if x == 92 {
            assert(b.len() >= 2 && b[0] == 92 && b[1] == 92);
            assert(b.skip(2) =~= tail_b);
        } else if x < 32 {
            lemma_hex_of(x / 16);
            lemma_hex_of(x % 16);
            assert(b.len() >= 6 && b[0] == 92 && b[1] == 117 && b[2] == 48 && b[3] == 48);
            assert(b[4] == hex_digit(x / 16) && b[5] == hex_digit(x % 16));
            assert(16 * hex_val(b[4]) + hex_val(b[5]) == x);
            assert(b.skip(6) =~= tail_b);
        } else {
            assert(b[0] == x);
            assert(b.skip(1) =~= tail_b);
        }
    }
}

/// Lowercase hex digit, executable.
fn hex_digit_exec(d: u8) -> (r: u8)
    requires
        d < 16,
    ensures
        r == hex_digit(d),
{
    if d < 10 {
        48 + d
    } else {
        87 + d
    }
}

fn is_hex_exec(b: u8) -> (r: bool)
    ensures
        r == is_hex(b),
{
    (48 <= b && b <= 57) || (97 <= b && b <= 102)
}

fn hex_val_exec(b: u8) -> (r: u8)
    requires
        is_hex(b),
    ensures
        r == hex_val(b),
{
    if 48 <= b && b <= 57 {
        b - 48
    } else {
        b - 87
    }
}

/// Append a JSON string: quote, escaped content, quote.
pub fn push_json_string(out: &mut Vec<u8>, s: &Vec<u8>)
    ensures
        final(out)@ == old(out)@ + json_string(s@),
{
    out.push(34);
    let n = s.len();
    let mut i: usize = 0;
    proof {
        assert(s@.take(0) =~= Seq::<u8>::empty());
        assert(out@ =~= old(out)@ + seq![34u8] + esc_bytes(s@.take(0)));
    }
    while i < n
        invariant
            n == s@.len(),
            0 <= i <= n,
            out@ == old(out)@ + seq![34u8] + esc_bytes(s@.take(i as int)),
        decreases n - i,
    {
        let b = s[i];
        proof {
            assert(s@.take(i + 1) =~= s@.take(i as int).push(b));
            lemma_esc_bytes_push(s@.take(i as int), b);
        }
        if b == 34 {
            out.push(92);
            out.push(34);
        } else if b == 92 {
            out.push(92);
            out.push(92);
        } else if b < 32 {
            out.push(92);
            out.push(117);
            out.push(48);
            out.push(48);
            out.push(hex_digit_exec(b / 16));
            out.push(hex_digit_exec(b % 16));
        } else {
            out.push(b);
        }
        proof {
            assert(out@ =~= old(out)@ + seq![34u8] + (esc_bytes(s@.take(i as int)) + esc_byte(
                b,
            )));
        }
        i = i + 1;
    }
    out.push(34);
    proof {
        assert(s@.take(n as int) =~= s@);
        assert(out@ =~= old(out)@ + json_string(s@));
    }
}

/// Parse a JSON string whose opening quote stands at `i - 1`: the content
/// and the position after the closing quote. Mirrors [`parse_string_body`]
/// on the bytes from `i` on.
pub fn parse_string_at(b: &Vec<u8>, i: usize) -> (r: Option<(Vec<u8>, usize)>)
    requires
        i <= b@.len(),
    ensures
        parse_string_body(b@.skip(i as int)) is None ==> r is None,
        parse_string_body(b@.skip(i as int)) matches Some((s, rest)) ==> (r matches Some(
            (v, j),
        ) && v@ == s && i <= j <= b@.len() && b@.skip(j as int) == rest),
{
    let n = b.len();
    let mut out: Vec<u8> = Vec::new();
    let mut j: usize = i;
    proof {
        assert(out@ + Seq::<u8>::empty() =~= Seq::<u8>::empty());
    }
    while j < n
        invariant
            i <= j <= n,
            n == b@.len(),
            prepend(out@, parse_string_body(b@.skip(j as int))) == parse_string_body(
                b@.skip(i as int),
            ),
        decreases n - j,
    {
        let ghost cur = b@.skip(j as int);
        proof {
            assert(cur[0] == b@[j as int]);
            assert(cur.skip(1) =~= b@.skip(j + 1));
            if j + 2 <= n {
                assert(cur.skip(2) =~= b@.skip(j + 2));
            }
            if j + 6 <= n {
                assert(cur.skip(6) =~= b@.skip(j + 6));
            }
        }
        let c = b[j];
        if c == 34 {
            proof {
                assert(parse_string_body(cur) == Some((Seq::<u8>::empty(), b@.skip(j + 1))));
                assert(out@ + Seq::<u8>::empty() =~= out@);
            }
            return Some((out, j + 1));
        } else if c == 92 {
            if j + 1 >= n {
                proof {
                    assert(cur.len() == n - j);
                    assert(parse_string_body(cur) is None);
                }
                return None;
            }
            let c2 = b[j + 1];
            proof {
                assert(cur.len() >= 2 && cur[1] == b@[j + 1]);
            }
            if c2 == 34 {
                proof {
                    lemma_prepend_cons(out@, 34, parse_string_body(b@.skip(j + 2)));
                }
                out.push(34);
                j = j + 2;
            } else if c2 == 92 {
                proof {
                    lemma_prepend_cons(out@, 92, parse_string_body(b@.skip(j + 2)));
                }
                out.push(92);
                j = j + 2;
            } else if c2 == 117 {
                if n - j < 6 {
                    proof {
                        assert(cur.len() < 6);
                        assert(parse_string_body(cur) is None);
                    }
                    return None;
                }
                proof {
                    assert(cur.len() >= 6);
                    assert(cur[2] == b@[j + 2] && cur[3] == b@[j + 3] && cur[4] == b@[j + 4]
                        && cur[5] == b@[j + 5]);
                }
                if b[j + 2] != 48 || b[j + 3] != 48 || !is_hex_exec(b[j + 4]) || !is_hex_exec(
                    b[j + 5],
                ) {
                    proof {
                        assert(parse_string_body(cur) is None);
                    }
                    return None;
                }
                let v = 16 * hex_val_exec(b[j + 4]) + hex_val_exec(b[j + 5]);
                if v >= 32 {
                    proof {
                        assert(parse_string_body(cur) is None);
                    }
                    return None;
                }
                proof {
                    lemma_prepend_cons(out@, v, parse_string_body(b@.skip(j + 6)));
                }
                out.push(v);
                j = j + 6;
            } else {
                proof {
                    assert(parse_string_body(cur) is None);
                }
                return None;
            }
        } else if c < 32 {
            proof {
                assert(parse_string_body(cur) is None);
            }
            return None;
        } else {
            proof {
                lemma_prepend_cons(out@, c, parse_string_body(b@.skip(j + 1)));
            }
            out.push(c);
            j = j + 1;
        }
    }
    proof {
        assert(b@.skip(j as int).len() == 0);
        assert(parse_string_body(b@.skip(j as int)) is None);
    }
    None
}


// ---------------------------------------------------------------------
// Fixed literals of the schema
// ---------------------------------------------------------------------
/// The bytes of `{\"type\":\"input\",\"data\":[`.
pub open spec fn lit_input_pre() -> Seq<u8> {
    seq![123u8, 34u8, 116u8, 121u8, 112u8, 101u8, 34u8, 58u8, 34u8, 105u8, 110u8, 112u8, 117u8, 116u8, 34u8, 44u8, 34u8, 100u8, 97u8, 116u8, 97u8, 34u8, 58u8, 91u8]
}

/// The bytes of `{\"type\":\"resize\",\"cols\":`.
pub open spec fn lit_resize_pre() -> Seq<u8> {
    seq![123u8, 34u8, 116u8, 121u8, 112u8, 101u8, 34u8, 58u8, 34u8, 114u8, 101u8, 115u8, 105u8, 122u8, 101u8, 34u8, 44u8, 34u8, 99u8, 111u8, 108u8, 115u8, 34u8, 58u8]
}

/// The bytes of `,\"rows\":`.
pub open spec fn lit_rows_mid() -> Seq<u8> {
    seq![44u8, 34u8, 114u8, 111u8, 119u8, 115u8, 34u8, 58u8]
}

/// The bytes of `{\"type\":\"close\"}`.
pub open spec fn lit_close() -> Seq<u8> {
    seq![123u8, 34u8, 116u8, 121u8, 112u8, 101u8, 34u8, 58u8, 34u8, 99u8, 108u8, 111u8, 115u8, 101u8, 34u8, 125u8]
}

/// The bytes of `{\"name\":`.
pub open spec fn lit_name_pre() -> Seq<u8> {
    seq![123u8, 34u8, 110u8, 97u8, 109u8, 101u8, 34u8, 58u8]
}

/// The bytes of `,\"shell\":`.
pub open spec fn lit_shell_mid() -> Seq<u8> {
    seq![44u8, 34u8, 115u8, 104u8, 101u8, 108u8, 108u8, 34u8, 58u8]
}

/// The bytes of `,\"pid\":`.
pub open spec fn lit_pid_mid() -> Seq<u8> {
    seq![44u8, 34u8, 112u8, 105u8, 100u8, 34u8, 58u8]
}

/// The bytes of `,\"tty\":`.
pub open spec fn lit_tty_mid() -> Seq<u8> {
    seq![44u8, 34u8, 116u8, 116u8, 121u8, 34u8, 58u8]
}

/// The bytes of `,\"proxy_version\":`.
pub open spec fn lit_pv_mid() -> Seq<u8> {
    seq![44u8, 34u8, 112u8, 114u8, 111u8, 120u8, 121u8, 95u8, 118u8, 101u8, 114u8, 115u8, 105u8, 111u8, 110u8, 34u8, 58u8]
}

pub fn lit_input_pre_vec() -> (v: Vec<u8>)
    ensures
        v@ == lit_input_pre(),
{
    let mut v: Vec<u8> = Vec::new();
    v.push(123);
    v.push(34);
    v.push(116);
    v.push(121);
    v.push(112);
    v.push(101);
    v.push(34);
    v.push(58);
    v.push(34);
    v.push(105);
    v.push(110);
    v.push(112);
    v.push(117);
    v.push(116);
    v.push(34);
    v.push(44);
    v.push(34);
    v.push(100);
    v.push(97);
    v.push(116);
    v.push(97);
    v.push(34);
    v.push(58);
    v.push(91);
    proof {
        assert(v@ =~= lit_input_pre());
    }
    v
}

pub fn lit_resize_pre_vec() -> (v: Vec<u8>)
    ensures
        v@ == lit_resize_pre(),
{
    let mut v: Vec<u8> = Vec::new();
    v.push(123);
    v.push(34);
    v.push(116);
    v.push(121);
    v.push(112);
    v.push(101);
    v.push(34);
    v.push(58);
    v.push(34);
    v.push(114);
    v.push(101);
    v.push(115);
    v.push(105);
    v.push(122);
    v.push(101);
    v.push(34);
    v.push(44);
    v.push(34);
    v.push(99);
    v.push(111);
    v.push(108);
    v.push(115);
    v.push(34);
    v.push(58);
    proof {
        assert(v@ =~= lit_resize_pre());
    }
    v
}

pub fn lit_rows_mid_vec() -> (v: Vec<u8>)
    ensures
        v@ == lit_rows_mid(),
{
    let mut v: Vec<u8> = Vec::new();
    v.push(44);
    v.push(34);
    v.push(114);
    v.push(111);
    v.push(119);
    v.push(115);
    v.push(34);
    v.push(58);
    proof {
        assert(v@ =~= lit_rows_mid());
    }
    v
}

pub fn lit_close_vec() -> (v: Vec<u8>)
    ensures
        v@ == lit_close(),
{
    let mut v: Vec<u8> = Vec::new();
    v.push(123);
    v.push(34);
    v.push(116);
    v.push(121);
    v.push(112);
    v.push(101);
    v.push(34);
    v.push(58);
    v.push(34);
    v.push(99);
    v.push(108);
    v.push(111);
    v.push(115);
    v.push(101);
    v.push(34);
    v.push(125);
    proof {
        assert(v@ =~= lit_close());
    }
    v
}

pub fn lit_name_pre_vec() -> (v: Vec<u8>)
    ensures
        v@ == lit_name_pre(),
{
    let mut v: Vec<u8> = Vec::new();
    v.push(123);
    v.push(34);
    v.push(110);
    v.push(97);
    v.push(109);
    v.push(101);
    v.push(34);
    v.push(58);
    proof {
        assert(v@ =~= lit_name_pre());
    }
    v
}

pub fn lit_shell_mid_vec() -> (v: Vec<u8>)
    ensures
        v@ == lit_shell_mid(),
{
    let mut v: Vec<u8> = Vec::new();
    v.push(44);
    v.push(34);
    v.push(115);
    v.push(104);
    v.push(101);
    v.push(108);
    v.push(108);
    v.push(34);
    v.push(58);
    proof {
        assert(v@ =~= lit_shell_mid());
    }
    v
}

pub fn lit_pid_mid_vec() -> (v: Vec<u8>)
    ensures
        v@ == lit_pid_mid(),
{
    let mut v: Vec<u8> = Vec::new();
    v.push(44);
    v.push(34);
    v.push(112);
    v.push(105);
    v.push(100);
    v.push(34);
    v.push(58);
    proof {
        assert(v@ =~= lit_pid_mid());
    }
    v
}

pub fn lit_tty_mid_vec() -> (v: Vec<u8>)
    ensures
        v@ == lit_tty_mid(),
{
    let mut v: Vec<u8> = Vec::new();
    v.push(44);
    v.push(34);
    v.push(116);
    v.push(116);
    v.push(121);
    v.push(34);
    v.push(58);
    proof {
        assert(v@ =~= lit_tty_mid());
    }
    v
}

pub fn lit_pv_mid_vec() -> (v: Vec<u8>)
    ensures
        v@ == lit_pv_mid(),
{
    let mut v: Vec<u8> = Vec::new();
    v.push(44);
    v.push(34);
    v.push(112);
    v.push(114);
    v.push(111);
    v.push(120);
    v.push(121);
    v.push(95);
    v.push(118);
    v.push(101);
    v.push(114);
    v.push(115);
    v.push(105);
    v.push(111);
    v.push(110);
    v.push(34);
    v.push(58);
    proof {
        assert(v@ =~= lit_pv_mid());
    }
    v
}


// ---------------------------------------------------------------------
// Byte arrays ("data":[..])
// ---------------------------------------------------------------------
/// The decimal list form of a byte string: numbers separated by commas.
pub open spec fn byte_list(s: Seq<u8>) -> Seq<u8>
    decreases s.len(),
{
    if s.len() == 0 {
        seq![]
    } else if s.len() == 1 {
        dec_digits(s[0] as nat)
    } else {
        dec_digits(s[0] as nat) + seq![44u8] + byte_list(s.drop_first())
    }
}

/// Parse a byte list up to the closing bracket: the bytes and what
/// follows the bracket. The opening bracket is already consumed.
pub open spec fn parse_byte_list(b: Seq<u8>) -> Option<(Seq<u8>, Seq<u8>)>
    decreases b.len(),
    via parse_byte_list_decreases
{
    if b.len() == 0 {
        None
    } else if b[0] == 93 {
        Some((seq![], b.skip(1)))
    } else {
        let k = digit_run_len(b);
        match parse_number(b, 255) {
            None => None,
            Some((v, r)) => {
                if r.len() > 0 && r[0] == 93 {
                    Some((seq![v as u8], r.skip(1)))
                } else if r.len() >= 2 && r[0] == 44 && is_digit(r[1]) {
                    cons_parsed(v as u8, parse_byte_list(b.skip(k + 1)))
                } else {
                    None
                }
            },
        }
    }
}

#[via_fn]
proof fn parse_byte_list_decreases(b: Seq<u8>) {
    lemma_digit_run_le_len(b);
}

/// The digit run never runs past the end.
pub proof fn lemma_digit_run_le_len(b: Seq<u8>)
    ensures
        0 <= digit_run_len(b) <= b.len(),
    decreases b.len(),
{
    if b.len() > 0 && is_digit(b[0]) {
        lemma_digit_run_le_len(b.drop_first());
    }
}

/// The encoded list of any byte string, a closing bracket and anything
/// after parse back to that byte string and that remainder.
pub proof fn lemma_parse_byte_list_round_trip(s: Seq<u8>, rest: Seq<u8>)
    ensures
        parse_byte_list(byte_list(s) + seq![93u8] + rest) == Some((s, rest)),
    decreases s.len(),
{
    let b = byte_list(s) + seq![93u8] + rest;
    lemma_pow10_ten();
    if s.len() == 0 {
        assert(byte_list(s) =~= Seq::<u8>::empty());
        assert(b =~= seq![93u8] + rest);
        assert(b[0] == 93);
        assert(b.skip(1) =~= rest);
        assert(s =~= Seq::<u8>::empty());
    } else if s.len() == 1 {
        let r1 = seq![93u8] + rest;
        assert(b =~= dec_digits(s[0] as nat) + r1);
        lemma_parse_number_round_trip(s[0] as nat, r1, 255);
        assert(r1[0] == 93);
        assert(b[0] == dec_digits(s[0] as nat)[0]);
        lemma_dec_digits_are_digits(s[0] as nat);
        assert(is_digit(b[0]) && b[0] != 93);
        assert(r1.skip(1) =~= rest);
        assert(seq![s[0]] =~= s);
    } else {
        let tail_list = byte_list(s.drop_first());
        let r1 = seq![44u8] + tail_list + seq![93u8] + rest;
        assert(byte_list(s) == dec_digits(s[0] as nat) + seq![44u8] + tail_list);
        assert(b =~= dec_digits(s[0] as nat) + r1);
        lemma_parse_number_round_trip(s[0] as nat, r1, 255);
        assert(r1[0] == 44 && r1[0] != 93);
        assert(b[0] == dec_digits(s[0] as nat)[0]);
        lemma_dec_digits_are_digits(s[0] as nat);
        lemma_dec_digits_are_digits(s.drop_first()[0] as nat);
        assert(is_digit(b[0]) && b[0] != 93);
        assert(tail_list[0] == dec_digits(s.drop_first()[0] as nat)[0]) by {
            if s.drop_first().len() == 1 {
            } else {
                assert(tail_list == dec_digits(s.drop_first()[0] as nat) + seq![44u8]
                    + byte_list(s.drop_first().drop_first()));
            }
        }
        assert(r1.len() >= 2 && r1[1] == tail_list[0]);
        assert(is_digit(r1[1]));
        assert(r1.skip(1) =~= tail_list + seq![93u8] + rest);
        let k0 = digit_run_len(b);
        lemma_digit_run_of(dec_digits(s[0] as nat), r1);
        assert(k0 == dec_digits(s[0] as nat).len());
        assert(b.skip(k0 + 1) =~= r1.skip(1));
        lemma_parse_byte_list_round_trip(s.drop_first(), rest);
        assert(seq![s[0]] + s.drop_first() =~= s);
    }
}

/// `byte_list` grows at the back by a comma (past the first element) and
/// the new number.
pub proof fn lemma_byte_list_push(s: Seq<u8>, x: u8)
    ensures
        byte_list(s.push(x)) == if s.len() == 0 {
            dec_digits(x as nat)
        } else {
            byte_list(s) + seq![44u8] + dec_digits(x as nat)
        },
    decreases s.len(),
{
    let p = s.push(x);
    if s.len() == 0 {
        assert(p.len() == 1 && p[0] == x);
    } else {
        assert(p.drop_first() =~= s.drop_first().push(x));
        lemma_byte_list_push(s.drop_first(), x);
        assert(p[0] == s[0]);
        if s.len() == 1 {
            assert(p.len() == 2);
            assert(byte_list(p) == dec_digits(s[0] as nat) + seq![44u8] + byte_list(
                p.drop_first(),
            ));
            assert(p.drop_first() =~= seq![x]);
            assert(byte_list(seq![x]) == dec_digits(x as nat));
        } else {
            assert(byte_list(p) == dec_digits(s[0] as nat) + seq![44u8] + byte_list(
                p.drop_first(),
            ));
            assert(dec_digits(s[0] as nat) + seq![44u8] + (byte_list(s.drop_first()) + seq![44u8]
                + dec_digits(x as nat)) =~= (dec_digits(s[0] as nat) + seq![44u8] + byte_list(
                s.drop_first(),
            )) + seq![44u8] + dec_digits(x as nat));
        }
    }
}

/// The list form of a byte string takes at most four bytes per element.
pub proof fn lemma_byte_list_len(s: Seq<u8>)
    ensures
        byte_list(s).len() <= 4 * s.len(),
    decreases s.len(),
{
    reveal_with_fuel(pow10, 4);
    if s.len() == 0 {
    } else if s.len() == 1 {
        lemma_dec_digits_len(s[0] as nat, 3);
    } else {
        lemma_dec_digits_len(s[0] as nat, 3);
        lemma_byte_list_len(s.drop_first());
    }
}

/// The ten-digit bound, spelled out once.
pub proof fn lemma_pow10_ten()
    ensures
        pow10(10) == 10_000_000_000,
{
    reveal_with_fuel(pow10, 11);
}

/// Append the decimal list form of `data`.
pub fn push_byte_list(out: &mut Vec<u8>, data: &Vec<u8>)
    ensures
        final(out)@ == old(out)@ + byte_list(data@),
{
    let n = data.len();
    let mut i: usize = 0;
    proof {
        assert(data@.take(0) =~= Seq::<u8>::empty());
        assert(out@ =~= old(out)@ + byte_list(data@.take(0)));
    }
    while i < n
        invariant
            n == data@.len(),
            0 <= i <= n,
            out@ == old(out)@ + byte_list(data@.take(i as int)),
        decreases n - i,
    {
        proof {
            assert(data@.take(i + 1) =~= data@.take(i as int).push(data@[i as int]));
            lemma_byte_list_push(data@.take(i as int), data@[i as int]);
        }
        if i > 0 {
            out.push(44);
        }
        push_dec(out, data[i] as u32);
        proof {
            assert(out@ =~= old(out)@ + byte_list(data@.take(i + 1)));
        }
        i = i + 1;
    }
    proof {
        assert(data@.take(n as int) =~= data@);
    }
}

/// Parse a byte list whose opening bracket stands at `i - 1`: the bytes
/// and the position after the closing bracket. Mirrors
/// [`parse_byte_list`] on the bytes from `i` on.
pub fn parse_byte_list_at(b: &Vec<u8>, i: usize) -> (r: Option<(Vec<u8>, usize)>)
    requires
        i <= b@.len(),
    ensures
        parse_byte_list(b@.skip(i as int)) is None ==> r is None,
        parse_byte_list(b@.skip(i as int)) matches Some((s, rest)) ==> (r matches Some(
            (v, j),
        ) && v@ == s && i <= j <= b@.len() && b@.skip(j as int) == rest),
{
    let n = b.len();
    if i < n && b[i] == 93 {
        let empty_out: Vec<u8> = Vec::new();
        proof {
            assert(b@.skip(i as int)[0] == 93);
            assert(b@.skip(i as int).skip(1) =~= b@.skip(i + 1));
            assert(empty_out@ =~= Seq::<u8>::empty());
        }
        return Some((empty_out, i + 1));
    }
    let mut out: Vec<u8> = Vec::new();
    let mut j: usize = i;
    proof {
        assert(prepend(out@, parse_byte_list(b@.skip(j as int))) == parse_byte_list(
            b@.skip(i as int),
        )) by {
            match parse_byte_list(b@.skip(i as int)) {
                Some((s, rr)) => {
                    assert(out@ + s =~= s);
                },
                None => {
                },
            }
        }
    }
    loop
        invariant
            i <= j <= n,
            n == b@.len(),
            prepend(out@, parse_byte_list(b@.skip(j as int))) == parse_byte_list(
                b@.skip(i as int),
            ),
            j < n ==> b@[j as int] != 93,
        decreases n - j,
    {
        let ghost cur = b@.skip(j as int);
        proof {
            if cur.len() > 0 {
                assert(cur[0] == b@[j as int]);
            }
        }
        if j >= n {
            proof {
                assert(cur.len() == 0);
                assert(parse_byte_list(cur) is None);
            }
            return None;
        }
        let parsed = parse_dec(b, j, 255);
        match parsed {
            None => {
                proof {
                    assert(parse_byte_list(cur) is None);
                }
                return None;
            },
            Some((v, k)) => {
                let ghost num = parse_number(cur, 255);
                let ghost krel = digit_run_len(cur);
                proof {
                    assert(num matches Some((nv, nr)) && nv == v && nr == b@.skip(k as int));
                    lemma_digit_run_le_len(cur);
                    assert(1 <= krel);
                    assert(b@.skip(k as int).len() == cur.skip(krel).len());
                    assert(cur.skip(krel).len() == cur.len() - krel);
                    assert(k == j + krel);
                }
                if k >= n {
                    proof {
                        assert(b@.skip(k as int).len() == 0);
                        assert(parse_byte_list(cur) is None);
                    }
                    return None;
                }
                proof {
                    assert(b@.skip(k as int)[0] == b@[k as int]);
                    assert(b@.skip(k as int).len() >= 1);
                }
                let c = b[k];
                if c == 93 {
                    out.push(v as u8);
                    proof {
                        assert(b@.skip(k as int).skip(1) =~= b@.skip(k + 1));
                        assert(parse_byte_list(cur) == Some(
                            (seq![v as u8], b@.skip(k + 1)),
                        ));
                        assert(out@ =~= out@.drop_last().push(v as u8));
                        assert(out@.drop_last() + seq![v as u8] =~= out@);
                    }
                    return Some((out, k + 1));
                } else if c == 44 {
                    if k + 1 >= n || !is_digit_exec(b[k + 1]) {
                        proof {
                            if k + 1 < n {
                                assert(b@.skip(k as int)[1] == b@[k + 1]);
                            }
                            assert(parse_byte_list(cur) is None);
                        }
                        return None;
                    }
                    proof {
                        assert(b@.skip(k as int)[1] == b@[k + 1]);
                        assert(cur.skip(krel + 1) =~= b@.skip(k + 1));
                        assert(parse_byte_list(cur) == cons_parsed(
                            v as u8,
                            parse_byte_list(b@.skip(k + 1)),
                        ));
                        lemma_prepend_cons(out@, v as u8, parse_byte_list(b@.skip(k + 1)));
                    }
                    out.push(v as u8);
                    j = k + 1;
                } else {
                    proof {
                        assert(parse_byte_list(cur) is None);
                    }
                    return None;
                }
            },
        }
    }
}


// ---------------------------------------------------------------------
// Control messages
// ---------------------------------------------------------------------
/// A control message between agent and proxy: input to inject into the
/// shell, a window resize, or an order to close the session.
#[derive(Debug, Clone)]
pub enum ControlMessage {
    Input { data: Vec<u8> },
    Resize { cols: u16, rows: u16 },
    Close,
}

/// The mathematical model of a control message.
pub enum ControlModel {
    Input(Seq<u8>),
    Resize(u16, u16),
    Close,
}

impl View for ControlMessage {
    type V = ControlModel;

    open spec fn view(&self) -> ControlModel {
        match self {
            ControlMessage::Input { data } => ControlModel::Input(data@),
            ControlMessage::Resize { cols, rows } => ControlModel::Resize(*cols, *rows),
            ControlMessage::Close => ControlModel::Close,
        }
    }
}

/// `b` begins with `lit`.
pub open spec fn starts_with(b: Seq<u8>, lit: Seq<u8>) -> bool {
    lit.len() <= b.len() && b.take(lit.len() as int) == lit
}

/// The canonical JSON bytes of a control message.
pub open spec fn control_json(m: ControlModel) -> Seq<u8> {
    match m {
        ControlModel::Input(d) => lit_input_pre() + byte_list(d) + seq![93u8, 125u8],
        ControlModel::Resize(c, w) => lit_resize_pre() + dec_digits(c as nat) + lit_rows_mid()
            + dec_digits(w as nat) + seq![125u8],
        ControlModel::Close => lit_close(),
    }
}

/// Parse a control message: exactly the canonical forms are accepted.
pub open spec fn parse_control(b: Seq<u8>) -> Option<ControlModel> {
    if starts_with(b, lit_input_pre()) {
        match parse_byte_list(b.skip(24)) {
            None => None,
            Some((d, r)) => if r == seq![125u8] {
                Some(ControlModel::Input(d))
            } else {
                None
            },
        }
    } else if starts_with(b, lit_resize_pre()) {
        match parse_number(b.skip(24), 65535) {
            None => None,
            Some((c, r)) => if starts_with(r, lit_rows_mid()) {
                match parse_number(r.skip(8), 65535) {
                    None => None,
                    Some((w, r2)) => if r2 == seq![125u8] {
                        Some(ControlModel::Resize(c as u16, w as u16))
                    } else {
                        None
                    },
                }
            } else {
                None
            },
        }
    } else if b == lit_close() {
        Some(ControlModel::Close)
    } else {
        None
    }
}

/// A control message encoded canonically parses back to itself.
pub proof fn lemma_parse_control_round_trip(m: ControlModel)
    ensures
        parse_control(control_json(m)) == Some(m),
{
    lemma_pow10_ten();
    let b = control_json(m);
    match m {
        ControlModel::Input(d) => {
            assert(b =~= lit_input_pre() + (byte_list(d) + seq![93u8] + seq![125u8]));
            assert(b.take(24) =~= lit_input_pre());
            assert(b.skip(24) =~= byte_list(d) + seq![93u8] + seq![125u8]);
            lemma_parse_byte_list_round_trip(d, seq![125u8]);
        },
        ControlModel::Resize(c, w) => {
            let after = lit_rows_mid() + dec_digits(w as nat) + seq![125u8];
            assert(b =~= lit_resize_pre() + (dec_digits(c as nat) + after));
            assert(!starts_with(b, lit_input_pre())) by {
                if starts_with(b, lit_input_pre()) {
                    assert(b.take(24)[9] == lit_input_pre()[9]);
                    assert(b[9] == lit_resize_pre()[9]);
                }
            }
            assert(b.take(24) =~= lit_resize_pre());
            assert(b.skip(24) =~= dec_digits(c as nat) + after);
            lemma_parse_number_round_trip(c as nat, after, 65535);
            assert(after.take(8) =~= lit_rows_mid());
            assert(after.skip(8) =~= dec_digits(w as nat) + seq![125u8]);
            lemma_parse_number_round_trip(w as nat, seq![125u8], 65535);
            assert((c as nat) as u16 == c && (w as nat) as u16 == w);
        },
        ControlModel::Close => {
            assert(b == lit_close());
            assert(b.len() == 16);
            assert(!starts_with(b, lit_input_pre()));
            assert(!starts_with(b, lit_resize_pre()));
        },
    }
}

/// `b` begins with `lit` at position `i`, executable.
pub fn starts_with_from(b: &Vec<u8>, i: usize, lit: &Vec<u8>) -> (r: bool)
    requires
        i <= b@.len(),
    ensures
        r == starts_with(b@.skip(i as int), lit@),
{
    let m = lit.len();
    if b.len() - i < m {
        return false;
    }
    let mut t: usize = 0;
    while t < m
        invariant
            0 <= t <= m,
            m == lit@.len(),
            i + m <= b@.len(),
            b@.len() <= usize::MAX,
            forall|q: int| 0 <= q < t ==> b@[i + q] == lit@[q],
        decreases m - t,
    {
        proof {
            assert(i + t < b@.len());
        }
        if b[i + t] != lit[t] {
            proof {
                assert(b@.skip(i as int).take(m as int)[t as int] == b@[i + t]);
            }
            return false;
        }
        t = t + 1;
    }
    proof {
        assert(b@.skip(i as int).take(m as int) =~= lit@);
    }
    true
}

/// Whether two byte strings hold the same bytes.
pub fn bytes_eq(a: &Vec<u8>, b: &Vec<u8>) -> (r: bool)
    ensures
        r == (a@ == b@),
{
    if a.len() != b.len() {
        return false;
    }
    let mut i: usize = 0;
    while i < a.len()
        invariant
            a@.len() == b@.len(),
            0 <= i <= a@.len(),
            forall|j: int| 0 <= j < i ==> a@[j] == b@[j],
        decreases a@.len() - i,
    {
        if a[i] != b[i] {
            return false;
        }
        i = i + 1;
    }
    proof {
        assert(a@ =~= b@);
    }
    true
}

/// The canonical JSON bytes of a control message.
pub fn control_json_bytes(m: &ControlMessage) -> (r: Vec<u8>)
    ensures
        r@ == control_json(m@),
{
    let mut out: Vec<u8> = Vec::new();
    match m {
        ControlMessage::Input { data } => {
            let pre = lit_input_pre_vec();
            push_all(&mut out, &pre);
            push_byte_list(&mut out, data);
            out.push(93);
            out.push(125);
            proof {
                assert(out@ =~= control_json(m@));
            }
        },
        ControlMessage::Resize { cols, rows } => {
            let pre = lit_resize_pre_vec();
            push_all(&mut out, &pre);
            push_dec(&mut out, *cols as u32);
            let mid = lit_rows_mid_vec();
            push_all(&mut out, &mid);
            push_dec(&mut out, *rows as u32);
            out.push(125);
            proof {
                assert(out@ =~= control_json(m@));
            }
        },
        ControlMessage::Close => {
            let lit = lit_close_vec();
            push_all(&mut out, &lit);
            proof {
                assert(out@ =~= control_json(m@));
            }
        },
    }
    out
}

/// Append all of `data`.
pub fn push_all(out: &mut Vec<u8>, data: &Vec<u8>)
    ensures
        final(out)@ == old(out)@ + data@,
{
    let n = data.len();
    let mut i: usize = 0;
    while i < n
        invariant
            n == data@.len(),
            0 <= i <= n,
            out@ =~= old(out)@ + data@.take(i as int),
        decreases n - i,
    {
        out.push(data[i]);
        proof {
            assert(out@ =~= old(out)@ + data@.take(i + 1));
        }
        i = i + 1;
    }
    proof {
        assert(data@.take(n as int) =~= data@);
    }
}

/// Parse a control message from a whole frame payload. Mirrors
/// [`parse_control`]: `None` exactly where the payload is not canonical.
pub fn parse_control_message(payload: &Vec<u8>) -> (r: Option<ControlMessage>)
    ensures
        r is None <==> parse_control(payload@) is None,
        r matches Some(m) ==> parse_control(payload@) == Some(m@),
{
    let n = payload.len();
    let ghost pv = payload@;
    proof {
        assert(pv.skip(0) =~= pv);
    }
    let input_pre = lit_input_pre_vec();
    let resize_pre = lit_resize_pre_vec();
    if starts_with_from(payload, 0, &input_pre) {
        match parse_byte_list_at(payload, 24) {
            None => {
                proof {
                    assert(parse_control(pv) is None);
                }
                None
            },
            Some((d, j)) => {
                let ghost r_spec = pv.skip(j as int);
                if n - j == 1 && payload[j] == 125 {
                    proof {
                        assert(r_spec =~= seq![125u8]);
                    }
                    Some(ControlMessage::Input { data: d })
                } else {
                    proof {
                        if r_spec == seq![125u8] {
                            assert(r_spec.len() == 1);
                            assert(r_spec[0] == pv[j as int]);
                            assert(r_spec[0] == 125);
                        }
                        assert(parse_control(pv) is None);
                    }
                    None
                }
            },
        }
    } else if starts_with_from(payload, 0, &resize_pre) {
        match parse_dec(payload, 24, 65535) {
            None => {
                proof {
                    assert(parse_control(pv) is None);
                }
                None
            },
            Some((c, j)) => {
                let mid = lit_rows_mid_vec();
                if !starts_with_from(payload, j, &mid) {
                    proof {
                        assert(parse_control(pv) is None);
                    }
                    return None;
                }
                proof {
                    assert(pv.skip(j as int).skip(8) =~= pv.skip(j + 8));
                }
                match parse_dec(payload, j + 8, 65535) {
                    None => {
                        proof {
                            assert(parse_control(pv) is None);
                        }
                        None
                    },
                    Some((w, j2)) => {
                        let ghost r2_spec = pv.skip(j2 as int);
                        if n - j2 == 1 && payload[j2] == 125 {
                            proof {
                                assert(r2_spec =~= seq![125u8]);
                            }
                            Some(ControlMessage::Resize { cols: c as u16, rows: w as u16 })
                        } else {
                            proof {
                                if r2_spec == seq![125u8] {
                                    assert(r2_spec.len() == 1);
                                    assert(r2_spec[0] == pv[j2 as int]);
                                    assert(r2_spec[0] == 125);
                                }
                                assert(parse_control(pv) is None);
                            }
                            None
                        }
                    },
                }
            },
        }
    } else {
        let close_lit = lit_close_vec();
        if bytes_eq(payload, &close_lit) {
            Some(ControlMessage::Close)
        } else {
            proof {
                assert(parse_control(pv) is None);
            }
            None
        }
    }
}


// ---------------------------------------------------------------------
// Registration
// ---------------------------------------------------------------------
/// The proxy's registration as it stands on the wire: UTF-8 byte strings
/// for the display name, the shell, and the controlling TTY path.
#[derive(Debug, Clone)]
pub struct Registration {
    pub name: Vec<u8>,
    pub shell: Vec<u8>,
    pub pid: u32,
    pub tty: Vec<u8>,
    pub proxy_version: u8,
}

/// The mathematical model of a registration.
#[verifier::ext_equal]
pub struct RegistrationModel {
    pub name: Seq<u8>,
    pub shell: Seq<u8>,
    pub pid: u32,
    pub tty: Seq<u8>,
    pub proxy_version: u8,
}

impl View for Registration {
    type V = RegistrationModel;

    open spec fn view(&self) -> RegistrationModel {
        RegistrationModel {
            name: self.name@,
            shell: self.shell@,
            pid: self.pid,
            tty: self.tty@,
            proxy_version: self.proxy_version,
        }
    }
}

/// The canonical JSON bytes of a registration.
pub open spec fn registration_json(m: RegistrationModel) -> Seq<u8> {
    lit_name_pre() + json_string(m.name) + lit_shell_mid() + json_string(m.shell) + lit_pid_mid()
        + dec_digits(m.pid as nat) + lit_tty_mid() + json_string(m.tty) + lit_pv_mid()
        + dec_digits(m.proxy_version as nat) + seq![125u8]
}

/// Parse a JSON string where one is expected: an opening quote, then the
/// escaped content up to the closing quote.
pub open spec fn parse_json_string(b: Seq<u8>) -> Option<(Seq<u8>, Seq<u8>)> {
    if b.len() > 0 && b[0] == 34 {
        parse_string_body(b.skip(1))
    } else {
        None
    }
}

/// Parse a registration: exactly the canonical form is accepted.
pub open spec fn parse_registration(b: Seq<u8>) -> Option<RegistrationModel> {
    if !starts_with(b, lit_name_pre()) {
        None
    } else {
        match parse_json_string(b.skip(8)) {
            None => None,
            Some((name, r1)) => if !starts_with(r1, lit_shell_mid()) {
                None
            } else {
                match parse_json_string(r1.skip(9)) {
                    None => None,
                    Some((shell, r2)) => if !starts_with(r2, lit_pid_mid()) {
                        None
                    } else {
                        match parse_number(r2.skip(7), 4294967295) {
                            None => None,
                            Some((pid, r3)) => if !starts_with(r3, lit_tty_mid()) {
                                None
                            } else {
                                match parse_json_string(r3.skip(7)) {
                                    None => None,
                                    Some((tty, r4)) => if !starts_with(r4, lit_pv_mid()) {
                                        None
                                    } else {
                                        match parse_number(r4.skip(17), 255) {
                                            None => None,
                                            Some((pv, r5)) => if r5 == seq![125u8] {
                                                Some(
                                                    RegistrationModel {
                                                        name,
                                                        shell,
                                                        pid: pid as u32,
                                                        tty,
                                                        proxy_version: pv as u8,
                                                    },
                                                )
                                            } else {
                                                None
                                            },
                                        }
                                    },
                                }
                            },
                        }
                    },
                }
            },
        }
    }
}

/// The canonical JSON bytes of a registration.
pub fn registration_json_bytes(reg: &Registration) -> (r: Vec<u8>)
    ensures
        r@ == registration_json(reg@),
{
    let mut out: Vec<u8> = Vec::new();
    let p1 = lit_name_pre_vec();
    push_all(&mut out, &p1);
    push_json_string(&mut out, &reg.name);
    let p2 = lit_shell_mid_vec();
    push_all(&mut out, &p2);
    push_json_string(&mut out, &reg.shell);
    let p3 = lit_pid_mid_vec();
    push_all(&mut out, &p3);
    push_dec(&mut out, reg.pid);
    let p4 = lit_tty_mid_vec();
    push_all(&mut out, &p4);
    push_json_string(&mut out, &reg.tty);
    let p5 = lit_pv_mid_vec();
    push_all(&mut out, &p5);
    push_dec(&mut out, reg.proxy_version as u32);
    out.push(125);
    proof {
        assert(out@ =~= registration_json(reg@));
    }
    out
}

/// Parse a JSON string starting at `i`. Mirrors [`parse_json_string`] on
/// the bytes from `i` on.
pub fn parse_json_string_at(b: &Vec<u8>, i: usize) -> (r: Option<(Vec<u8>, usize)>)
    requires
        i <= b@.len(),
    ensures
        parse_json_string(b@.skip(i as int)) is None ==> r is None,
        parse_json_string(b@.skip(i as int)) matches Some((s, rest)) ==> (r matches Some(
            (v, j),
        ) && v@ == s && i <= j <= b@.len() && b@.skip(j as int) == rest),
{
    if i < b.len() && b[i] == 34 {
        proof {
            assert(b@.skip(i as int)[0] == 34);
            assert(b@.skip(i as int).skip(1) =~= b@.skip(i + 1));
        }
        parse_string_at(b, i + 1)
    } else {
        proof {
            if i < b@.len() {
                assert(b@.skip(i as int)[0] == b@[i as int]);
            } else {
                assert(b@.skip(i as int).len() == 0);
            }
        }
        None
    }
}

/// Parse a registration frame payload into its wire form. Mirrors
/// [`parse_registration`]: `None` exactly where the payload is not the
/// canonical form.
#[verifier::rlimit(60)]
pub fn parse_registration_bytes(payload: &Vec<u8>) -> (r: Option<Registration>)
    ensures
        r is None <==> parse_registration(payload@) is None,
        r matches Some(m) ==> parse_registration(payload@) == Some(m@),
{
    let n = payload.len();
    let ghost pv = payload@;
    proof {
        assert(pv.skip(0) =~= pv);
    }
    let p1 = lit_name_pre_vec();
    if !starts_with_from(payload, 0, &p1) {
        return None;
    }
    proof {
        assert(pv.skip(0).skip(8) =~= pv.skip(8));
    }
    let name = match parse_json_string_at(payload, 8) {
        None => {
            return None;
        },
        Some(v) => v,
    };
    let (name_v, j1) = name;
    let p2 = lit_shell_mid_vec();
    if !starts_with_from(payload, j1, &p2) {
        return None;
    }
    proof {
        assert(pv.skip(j1 as int).skip(9) =~= pv.skip(j1 + 9));
    }
    let shell = match parse_json_string_at(payload, j1 + 9) {
        None => {
            return None;
        },
        Some(v) => v,
    };
    let (shell_v, j2) = shell;
    let p3 = lit_pid_mid_vec();
    if !starts_with_from(payload, j2, &p3) {
        return None;
    }
    proof {
        assert(pv.skip(j2 as int).skip(7) =~= pv.skip(j2 + 7));
    }
    let pid = match parse_dec(payload, j2 + 7, 4294967295u32) {
        None => {
            return None;
        },
        Some(v) => v,
    };
    let (pid_v, j3) = pid;
    let p4 = lit_tty_mid_vec();
    if !starts_with_from(payload, j3, &p4) {
        return None;
    }
    proof {
        assert(pv.skip(j3 as int).skip(7) =~= pv.skip(j3 + 7));
    }
    let tty = match parse_json_string_at(payload, j3 + 7) {
        None => {
            return None;
        },
        Some(v) => v,
    };
    let (tty_v, j4) = tty;
    let p5 = lit_pv_mid_vec();
    if !starts_with_from(payload, j4, &p5) {
        return None;
    }
    proof {
        assert(pv.skip(j4 as int).skip(17) =~= pv.skip(j4 + 17));
    }
    let pvn = match parse_dec(payload, j4 + 17, 255) {
        None => {
            return None;
        },
        Some(v) => v,
    };
    let (pv_v, j5) = pvn;
    let ghost r5_spec = pv.skip(j5 as int);
    if n - j5 == 1 && payload[j5] == 125 {
        proof {
            assert(r5_spec =~= seq![125u8]);
        }
        Some(
            Registration {
                name: name_v,
                shell: shell_v,
                pid: pid_v,
                tty: tty_v,
                proxy_version: pv_v as u8,
            },
        )
    } else {
        proof {
            if r5_spec == seq![125u8] {
                assert(r5_spec.len() == 1);
                assert(r5_spec[0] == pv[j5 as int]);
                assert(r5_spec[0] == 125);
            }
            assert(parse_registration(pv) is None);
        }
        None
    }
}

/// Relies on std's `String::from_utf8`: it returns `Ok` exactly on valid
/// UTF-8 input, and the returned string's UTF-8 encoding is the input.
#[verifier::external_body]
pub fn string_from_utf8(v: Vec<u8>) -> (r: Option<String>)
    ensures
        r is Some <==> vstd::utf8::valid_utf8(v@),
        r matches Some(s) ==> vstd::utf8::encode_utf8(s@) == v@,
{
    String::from_utf8(v).ok()
}


/// A registration encoded canonically parses back to itself, every field
/// intact, the reserved protocol version included.
#[verifier::rlimit(100)]
pub proof fn lemma_parse_registration_round_trip(m: RegistrationModel)
    ensures
        parse_registration(registration_json(m)) == Some(m),
{
    lemma_pow10_ten();
    let b = registration_json(m);
    let rest1 = lit_shell_mid() + json_string(m.shell) + lit_pid_mid() + dec_digits(m.pid as nat)
        + lit_tty_mid() + json_string(m.tty) + lit_pv_mid() + dec_digits(m.proxy_version as nat)
        + seq![125u8];
    let s1 = json_string(m.name) + rest1;
    assert(b =~= lit_name_pre() + s1);
    assert(b.take(8) =~= lit_name_pre());
    assert(b.skip(8) =~= s1);
    assert(s1[0] == 34);
    assert(s1.skip(1) =~= esc_bytes(m.name) + seq![34u8] + rest1);
    lemma_parse_string_round_trip(m.name, rest1);

    let rest2 = lit_pid_mid() + dec_digits(m.pid as nat) + lit_tty_mid() + json_string(m.tty)
        + lit_pv_mid() + dec_digits(m.proxy_version as nat) + seq![125u8];
    let s2 = json_string(m.shell) + rest2;
    assert(rest1.take(9) =~= lit_shell_mid());
    assert(rest1.skip(9) =~= s2);
    assert(s2[0] == 34);
    assert(s2.skip(1) =~= esc_bytes(m.shell) + seq![34u8] + rest2);
    lemma_parse_string_round_trip(m.shell, rest2);

    let rest3 = lit_tty_mid() + json_string(m.tty) + lit_pv_mid() + dec_digits(
        m.proxy_version as nat,
    ) + seq![125u8];
    assert(rest2.take(7) =~= lit_pid_mid());
    assert(rest2.skip(7) =~= dec_digits(m.pid as nat) + rest3);
    assert(rest3[0] == 44 && !is_digit(rest3[0]));
    lemma_parse_number_round_trip(m.pid as nat, rest3, 4294967295);

    let rest4 = lit_pv_mid() + dec_digits(m.proxy_version as nat) + seq![125u8];
    let s4 = json_string(m.tty) + rest4;
    assert(rest3.take(7) =~= lit_tty_mid());
    assert(rest3.skip(7) =~= s4);
    assert(s4[0] == 34);
    assert(s4.skip(1) =~= esc_bytes(m.tty) + seq![34u8] + rest4);
    lemma_parse_string_round_trip(m.tty, rest4);

    let rest5 = seq![125u8];
    assert(rest4.take(17) =~= lit_pv_mid());
    assert(rest4.skip(17) =~= dec_digits(m.proxy_version as nat) + rest5);
    assert(!is_digit(rest5[0]));
    lemma_parse_number_round_trip(m.proxy_version as nat, rest5, 255);

    assert((m.pid as nat) as u32 == m.pid);
    assert((m.proxy_version as nat) as u8 == m.proxy_version);
    let parsed = parse_registration(b);
    assert(parsed matches Some(p) && p =~~= m);
}

} // verus!
