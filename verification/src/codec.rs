//! The line-based text codec: configurations are read from and results
//! written to ASCII text, one record per line. Numbers travel as plain
//! decimals with at most three fraction digits, the textual form of the
//! fixed-point coordinates.

use vstd::prelude::*;

use crate::models::{slot_radius, Configuration, Point, COORD_LIMIT, DIM_LIMIT};

verus! {

/// ASCII digit.
pub open spec fn is_digit(b: u8) -> bool {
    48 <= b <= 57
}

/// The decimal digits of `n`, most significant first.
pub open spec fn digits_of(n: int) -> Seq<u8>
    decreases (if n < 10 { 0int } else { n }),
{
    if n < 10 {
        seq![(48 + n) as u8]
    } else {
        digits_of(n / 10).push((48 + n % 10) as u8)
    }
}

/// Ten to the `k`.
pub open spec fn pow10(k: int) -> int
    decreases (if k <= 0 { 0int } else { k }),
{
    if k <= 0 {
        1
    } else {
        10 * pow10(k - 1)
    }
}

/// The canonical text of a non-negative fixed-point value: the whole part,
/// a dot, and exactly three fraction digits.
pub open spec fn fixed_bytes(v: int) -> Seq<u8> {
    digits_of(v / 1000) + seq![46u8] + seq![
        (48 + (v % 1000) / 100) as u8,
        (48 + ((v % 1000) / 10) % 10) as u8,
        (48 + (v % 1000) % 10) as u8,
    ]
}

proof fn lemma_digits_of_are_digits(n: int)
    requires
        n >= 0,
    ensures
        forall|i: int| 0 <= i < digits_of(n).len() ==> is_digit(#[trigger] digits_of(n)[i]),
        digits_of(n).len() >= 1,
    decreases (if n < 10 { 0int } else { n }),
{
    if n >= 10 {
        lemma_digits_of_are_digits(n / 10);
        vstd::arithmetic::div_mod::lemma_mod_bound(n, 10);
    } else {
    }
}

proof fn lemma_digits_of_len(n: int, k: int)
    requires
        0 <= n,
        n < pow10(k),
        1 <= k,
    ensures
        1 <= digits_of(n).len() <= k,
    decreases k,
{
    if n >= 10 {
        assert(k >= 2) by {
            reveal_with_fuel(pow10, 3);
        }
        assert(n / 10 < pow10(k - 1)) by {
            vstd::arithmetic::div_mod::lemma_div_is_ordered(n, pow10(k) - 1, 10);
            assert(pow10(k) == 10 * pow10(k - 1));
            vstd::arithmetic::div_mod::lemma_fundamental_div_mod(pow10(k) - 1, 10);
            assert((pow10(k) - 1) / 10 <= pow10(k - 1) - 1) by (nonlinear_arith)
                requires
                    pow10(k) == 10 * pow10(k - 1),
                    (pow10(k) - 1) == 10 * ((pow10(k) - 1) / 10) + (pow10(k) - 1) % 10,
                    0 <= (pow10(k) - 1) % 10 < 10,
            {}
        }
        lemma_digits_of_len(n / 10, k - 1);
    }
}

/// The first position at or after `pos` that does not hold a digit.
pub open spec fn digits_end(s: Seq<u8>, pos: int) -> int
    decreases (if pos < 0 || pos >= s.len() { 0int } else { s.len() - pos }),
{
    if pos < 0 || pos >= s.len() || !is_digit(s[pos]) {
        pos
    } else {
        digits_end(s, pos + 1)
    }
}

/// The value of the digit run `s[pos..end]`.
pub open spec fn digits_val(s: Seq<u8>, pos: int, end: int) -> int
    decreases (if end <= pos { 0int } else { end - pos }),
{
    if end <= pos {
        0
    } else {
        digits_val(s, pos, end - 1) * 10 + (s[end - 1] - 48)
    }
}

proof fn lemma_digits_end_concat(s: Seq<u8>, pos: int, k: int)
    requires
        0 <= pos,
        pos + k <= s.len(),
        k >= 0,
        forall|i: int| pos <= i < pos + k ==> is_digit(#[trigger] s[i]),
        pos + k == s.len() || !is_digit(s[pos + k]),
    ensures
        digits_end(s, pos) == pos + k,
    decreases k,
{
    if k > 0 {
        lemma_digits_end_concat(s, pos + 1, k - 1);
    }
}

proof fn lemma_digits_val_of(s: Seq<u8>, pos: int, n: int)
    requires
        n >= 0,
        0 <= pos,
        pos + digits_of(n).len() <= s.len(),
        s.subrange(pos, pos + digits_of(n).len() as int) == digits_of(n),
    ensures
        digits_val(s, pos, pos + digits_of(n).len() as int) == n,
    decreases (if n < 10 { 0int } else { n }),
{
    let l = digits_of(n).len() as int;
    if n < 10 {
        assert(s[pos] == digits_of(n)[0]);
        assert(digits_val(s, pos, pos) == 0);
        assert(digits_val(s, pos, pos + 1) == s[pos] - 48);
    } else {
        let hd = digits_of(n / 10);
        assert(digits_of(n) == hd.push((48 + n % 10) as u8));
        assert(s.subrange(pos, pos + hd.len() as int) =~= hd) by {
            assert forall|i: int| 0 <= i < hd.len() implies s.subrange(
                pos,
                pos + hd.len() as int,
            )[i] == hd[i] by {
                assert(s[pos + i] == digits_of(n)[i]);
            }
        }
        lemma_digits_val_of(s, pos, n / 10);
        assert(s[pos + l - 1] == digits_of(n)[l - 1]);
        assert(digits_of(n)[l - 1] == (48 + n % 10) as u8);
        vstd::arithmetic::div_mod::lemma_mod_bound(n, 10);
        vstd::arithmetic::div_mod::lemma_fundamental_div_mod(n, 10);
    }
}

/// The decimal digits of `n`, as bytes.
pub fn format_uint(n: i64) -> (r: Vec<u8>)
    requires
        0 <= n,
    ensures
        r@ == digits_of(n as int),
    decreases n,
{
    if n < 10 {
        let mut r: Vec<u8> = Vec::new();
        r.push(48 + (n as u8));
        proof {
            assert(r@ =~= digits_of(n as int));
        }
        r
    } else {
        let mut r = format_uint(n / 10);
        r.push(48 + ((n % 10) as u8));
        proof {
            assert(r@ =~= digits_of(n as int));
        }
        r
    }
}

/// The canonical text of a non-negative fixed-point value.
pub fn format_fixed(v: i64) -> (r: Vec<u8>)
    requires
        0 <= v,
    ensures
        r@ == fixed_bytes(v as int),
{
    let mut r = format_uint(v / 1000);
    let f = v % 1000;
    r.push(46);
    r.push(48 + ((f / 100) as u8));
    r.push(48 + (((f / 10) % 10) as u8));
    r.push(48 + ((f % 10) as u8));
    proof {
        assert(r@ =~= fixed_bytes(v as int));
    }
    r
}

proof fn lemma_pow10_pos(k: int)
    ensures
        pow10(k) >= 1,
    decreases (if k <= 0 { 0int } else { k }),
{
    if k > 0 {
        lemma_pow10_pos(k - 1);
    }
}

proof fn lemma_pow10_mono(a: int, b: int)
    requires
        a <= b,
    ensures
        pow10(a) <= pow10(b),
    decreases (if b <= 0 { 0int } else { b }),
{
    lemma_pow10_pos(a);
    if a < b && b > 0 {
        lemma_pow10_mono(a, b - 1);
        lemma_pow10_pos(b - 1);
    }
}

proof fn lemma_pow10_vals()
    ensures
        pow10(0) == 1,
        pow10(1) == 10,
        pow10(2) == 100,
        pow10(3) == 1000,
        pow10(15) == 1_000_000_000_000_000,
        pow10(16) == 10_000_000_000_000_000,
{
    reveal_with_fuel(pow10, 18);
}

proof fn lemma_digits_end_lb(s: Seq<u8>, pos: int)
    requires
        0 <= pos,
    ensures
        digits_end(s, pos) >= pos,
    decreases (if pos >= s.len() { 0int } else { s.len() - pos }),
{
    if pos < s.len() && is_digit(s[pos]) {
        lemma_digits_end_lb(s, pos + 1);
    }
}

proof fn lemma_digits_end_ge(s: Seq<u8>, pos: int, e: int)
    requires
        0 <= pos <= e <= s.len(),
        forall|i: int| pos <= i < e ==> is_digit(#[trigger] s[i]),
    ensures
        digits_end(s, pos) >= e,
    decreases e - pos,
{
    if pos < e {
        lemma_digits_end_ge(s, pos + 1, e);
    } else {
        lemma_digits_end_lb(s, pos);
    }
}

proof fn lemma_digits_val_bound(s: Seq<u8>, pos: int, e: int)
    requires
        0 <= pos <= e,
        forall|i: int| pos <= i < e ==> is_digit(#[trigger] s[i]),
    ensures
        0 <= digits_val(s, pos, e) < pow10(e - pos),
    decreases e - pos,
{
    if e == pos {
    } else {
        lemma_digits_val_bound(s, pos, e - 1);
    }
}

/// What parsing a fixed-point number at `pos` yields: the value in
/// thousandths and the position after the number, or nothing when no
/// number stands there. A whole part is mandatory, a dot with one to
/// three fraction digits optional, and over-long digit runs are rejected.
pub open spec fn parse_fixed_spec(s: Seq<u8>, pos: int) -> Option<(int, int)> {
    let e = digits_end(s, pos);
    if e == pos || e - pos > 15 {
        None
    } else {
        let ip = digits_val(s, pos, e);
        if e < s.len() && s[e] == 46 {
            let e2 = digits_end(s, e + 1);
            if e2 == e + 1 || e2 - (e + 1) > 3 {
                None
            } else {
                Some((ip * 1000 + digits_val(s, e + 1, e2) * pow10(3 - (e2 - e - 1)), e2))
            }
        } else {
            Some((ip * 1000, e))
        }
    }
}

/// Scan a digit run from `pos`: its value and end, or nothing when it is
/// empty or longer than `max_len`.
fn scan_digits(s: &Vec<u8>, pos: usize, max_len: usize) -> (r: Option<(i64, usize)>)
    requires
        pos <= s@.len(),
        1 <= max_len <= 15,
    ensures
        match r {
            Some(p) => {
                &&& p.1 as int == digits_end(s@, pos as int)
                &&& pos < p.1 <= s@.len()
                &&& p.1 - pos <= max_len
                &&& p.0 as int == digits_val(s@, pos as int, p.1 as int)
                &&& 0 <= p.0 < pow10(p.1 - pos)
            },
            None => digits_end(s@, pos as int) == pos || digits_end(s@, pos as int) - pos
                > max_len,
        },
{
    proof {
        lemma_pow10_vals();
        vstd::std_specs::vec::axiom_spec_len(s);
    }
    let n = s.len();
    let mut e = pos;
    let mut val: i64 = 0;
    while e < n && 48 <= s[e] && s[e] <= 57
        invariant
            pos <= e <= n,
            n == s@.len() <= usize::MAX,
            1 <= max_len <= 15,
            e - pos <= max_len,
            forall|i: int| pos <= i < e ==> is_digit(#[trigger] s@[i]),
            val as int == digits_val(s@, pos as int, e as int),
            0 <= val < pow10(e - pos),
            pow10(15) == 1_000_000_000_000_000,
        decreases n - e,
    {
        proof {
            lemma_pow10_mono(e - pos, 15);
            assert(pow10(e - pos + 1) == 10 * pow10(e - pos));
        }
        val = val * 10 + ((s[e] - 48) as i64);
        e = e + 1;
        if e - pos > max_len {
            proof {
                lemma_digits_end_ge(s@, pos as int, e as int);
            }
            return None;
        }
    }
    proof {
        lemma_digits_end_concat(s@, pos as int, e - pos);
        lemma_pow10_mono(e - pos, max_len as int);
    }
    if e == pos {
        return None;
    }
    Some((val, e))
}

/// Parse a fixed-point number at `pos`, as `parse_fixed_spec` describes.
pub fn parse_fixed_at(s: &Vec<u8>, pos: usize) -> (r: Option<(i64, usize)>)
    requires
        pos <= s@.len(),
    ensures
        match r {
            Some(p) => {
                &&& parse_fixed_spec(s@, pos as int) == Some((p.0 as int, p.1 as int))
                &&& pos < p.1 <= s@.len()
                &&& 0 <= p.0 <= 1_000_000_000_000_000_000
            },
            None => parse_fixed_spec(s@, pos as int) is None,
        },
{
    proof {
        lemma_pow10_vals();
        vstd::std_specs::vec::axiom_spec_len(s);
    }
    let whole = scan_digits(s, pos, 15);
    match whole {
        None => None,
        Some((ip, e)) => {
            if e < s.len() && s[e] == 46 {
                let frac = scan_digits(s, e + 1, 3);
                match frac {
                    None => None,
                    Some((f, e2)) => {
                        let cnt = e2 - (e + 1);
                        let scale: i64 = if cnt == 1 {
                            100
                        } else if cnt == 2 {
                            10
                        } else {
                            1
                        };
                        proof {
                            lemma_pow10_vals();
                            lemma_pow10_mono(e as int - pos as int, 15);
                            assert(scale as int == pow10(3 - cnt as int));
                            assert(pow10(1) * pow10(2) == 1000 && pow10(2) * pow10(1) == 1000
                                && pow10(3) * pow10(0) == 1000);
                            assert(f * scale < 1000) by (nonlinear_arith)
                                requires
                                    0 <= f < pow10(cnt as int),
                                    scale as int == pow10(3 - cnt as int),
                                    pow10(cnt as int) * pow10(3 - cnt as int) == 1000,
                            {}
                            assert(0 <= ip * 1000 <= 1_000_000_000_000_000_000) by (nonlinear_arith)
                                requires 0 <= ip <= 1_000_000_000_000_000
                            {}
                        }
                        Some((ip * 1000 + f * scale, e2))
                    },
                }
            } else {
                proof {
                    lemma_pow10_mono(e as int - pos as int, 15);
                    assert(0 <= ip * 1000 <= 1_000_000_000_000_000_000) by (nonlinear_arith)
                        requires 0 <= ip <= 1_000_000_000_000_000
                    {}
                }
                Some((ip * 1000, e))
            }
        },
    }
}

/// Reading back a formatted fixed-point value gives the value itself, as
/// long as what follows cannot extend the number.
pub proof fn lemma_fixed_round_trip(s: Seq<u8>, pos: int, v: int)
    requires
        0 <= v <= 2_000_000_000_000,
        0 <= pos,
        pos + fixed_bytes(v).len() <= s.len(),
        s.subrange(pos, pos + fixed_bytes(v).len() as int) == fixed_bytes(v),
        pos + fixed_bytes(v).len() == s.len() || !is_digit(s[pos + fixed_bytes(v).len()]),
    ensures
        parse_fixed_spec(s, pos) == Some((v, pos + fixed_bytes(v).len())),
{
    lemma_pow10_vals();
    let ip = v / 1000;
    let fr = v % 1000;
    let hd = digits_of(ip);
    let l = hd.len() as int;
    let total = fixed_bytes(v).len() as int;
    assert(total == l + 4);
    lemma_digits_of_are_digits(ip);
    assert forall|i: int| 0 <= i < total implies s[pos + i] == fixed_bytes(v)[i] by {
        assert(s.subrange(pos, pos + total)[i] == fixed_bytes(v)[i]);
    }
    assert(s.subrange(pos, pos + l) =~= hd) by {
        assert forall|i: int| 0 <= i < l implies s.subrange(pos, pos + l)[i] == hd[i] by {
            assert(fixed_bytes(v)[i] == hd[i]);
        }
    }
    assert(fixed_bytes(v)[l] == 46u8);
    assert(s[pos + l] == 46);
    assert forall|i: int| pos <= i < pos + l implies is_digit(#[trigger] s[i]) by {
        assert(fixed_bytes(v)[i - pos] == hd[i - pos]);
        assert(s[i] == hd[i - pos]);
    }
    lemma_digits_end_concat(s, pos, l);
    lemma_digits_val_of(s, pos, ip);
    lemma_digits_of_len(ip, 15);
    vstd::arithmetic::div_mod::lemma_mod_bound(v, 1000);
    assert(fixed_bytes(v)[l + 1] == (48 + fr / 100) as u8);
    assert(fixed_bytes(v)[l + 2] == (48 + (fr / 10) % 10) as u8);
    assert(fixed_bytes(v)[l + 3] == (48 + fr % 10) as u8);
    assert(s[pos + l + 1] == (48 + fr / 100) as u8);
    assert(s[pos + l + 2] == (48 + (fr / 10) % 10) as u8);
    assert(s[pos + l + 3] == (48 + fr % 10) as u8);
    assert(0 <= fr / 100 <= 9) by (nonlinear_arith)
        requires 0 <= fr <= 999
    {}
    vstd::arithmetic::div_mod::lemma_mod_bound(fr / 10, 10);
    vstd::arithmetic::div_mod::lemma_mod_bound(fr, 10);
    lemma_digits_end_concat(s, pos + l + 1, 3);
    let e2 = pos + l + 4;
    assert(digits_val(s, pos + l + 1, e2) == fr) by {
        assert(digits_val(s, pos + l + 1, pos + l + 1) == 0);
        assert(digits_val(s, pos + l + 1, pos + l + 2) == fr / 100);
        assert(digits_val(s, pos + l + 1, pos + l + 3) == (fr / 100) * 10 + (fr / 10) % 10);
        assert(digits_val(s, pos + l + 1, e2) == ((fr / 100) * 10 + (fr / 10) % 10) * 10 + fr
            % 10);
        assert(((fr / 100) * 10 + (fr / 10) % 10) * 10 + fr % 10 == fr) by (nonlinear_arith)
            requires 0 <= fr <= 999
        {}
    }
    assert(pow10(0) == 1);
    vstd::arithmetic::div_mod::lemma_fundamental_div_mod(v, 1000);
}

/// One result line: two coordinates and the radius of one point,
/// space-separated and newline-terminated.
pub open spec fn line_of3(a: int, b: int, c: int) -> Seq<u8> {
    fixed_bytes(a) + seq![32u8] + fixed_bytes(b) + seq![32u8] + fixed_bytes(c) + seq![10u8]
}

/// The result lines for the slots from `k` on.
pub open spec fn result_lines(conf: Configuration, s: Seq<Point>, k: int) -> Seq<u8>
    decreases s.len() - k,
{
    if k < 0 || k >= s.len() {
        Seq::empty()
    } else {
        line_of3(s[k].x as int, s[k].y as int, slot_radius(conf, k) as int) + result_lines(
            conf,
            s,
            k + 1,
        )
    }
}

/// The whole result text: the rectangle line, then one line per point.
pub open spec fn result_bytes(conf: Configuration, s: Seq<Point>) -> Seq<u8> {
    fixed_bytes(conf.w as int) + seq![32u8] + fixed_bytes(conf.h as int) + seq![10u8]
        + result_lines(conf, s, 0)
}

/// Append the bytes of a fixed-point value.
fn push_fixed(out: &mut Vec<u8>, v: i64)
    requires
        0 <= v,
    ensures
        final(out)@ == old(out)@ + fixed_bytes(v as int),
{
    let mut t = format_fixed(v);
    out.append(&mut t);
}

/// Write a state as result text: the rectangle dimensions, then one line
/// per point with its coordinates and its group radius. Group boundaries
/// are not written out.
pub fn format_result(conf: &Configuration, state: &Vec<Point>) -> (r: Vec<u8>)
    requires
        conf.wf(),
        state@.len() == conf.n,
        forall|k: int|
            0 <= k < state@.len()
                ==> 0 <= (#[trigger] state@[k]).x && 0 <= state@[k].y,
    ensures
        r@ == result_bytes(*conf, state@),
{
    let mut out: Vec<u8> = Vec::new();
    push_fixed(&mut out, conf.w);
    out.push(32);
    push_fixed(&mut out, conf.h);
    out.push(10);
    proof {
        assert(out@ + result_lines(*conf, state@, 0) =~= result_bytes(*conf, state@));
    }
    let radii = crate::models::Circle::from_state(conf, state);
    let mut k: usize = 0;
    while k < state.len()
        invariant
            conf.wf(),
            state@.len() == conf.n,
            crate::models::circles_of(*conf, state@, radii@),
            forall|j: int|
                0 <= j < state@.len()
                    ==> 0 <= (#[trigger] state@[j]).x && 0 <= state@[j].y,
            0 <= k <= conf.n,
            out@ + result_lines(*conf, state@, k as int) == result_bytes(*conf, state@),
        decreases state@.len() - k,
    {
        let p = state[k];
        proof {
            crate::models::lemma_slot_group_in_range(conf.counts@, k as int);
        }
        let ghost before = out@;
        push_fixed(&mut out, p.x);
        out.push(32);
        push_fixed(&mut out, p.y);
        out.push(32);
        push_fixed(&mut out, radii[k].radius);
        out.push(10);
        proof {
            assert(out@ =~= before + line_of3(
                state@[k as int].x as int,
                state@[k as int].y as int,
                slot_radius(*conf, k as int) as int,
            ));
            assert(out@ + result_lines(*conf, state@, k as int + 1) =~= before + result_lines(
                *conf,
                state@,
                k as int,
            ));
        }
        k = k + 1;
    }
    proof {
        assert(out@ =~= result_bytes(*conf, state@));
    }
    out
}

/// What parsing a stream of result lines from `pos` yields: one value
/// triple per line, each line two coordinates and a radius.
pub open spec fn parse_lines_spec(s: Seq<u8>, pos: int) -> Option<Seq<(int, int, int)>>
    decreases s.len() - pos,
{
    if pos == s.len() {
        Some(Seq::empty())
    } else if pos < 0 || pos > s.len() {
        None
    } else {
        match parse_fixed_spec(s, pos) {
            Option::None => None,
            Option::Some(x) => {
                if !(pos < x.1 && x.1 < s.len() && s[x.1] == 32) {
                    None
                } else {
                    match parse_fixed_spec(s, x.1 + 1) {
                        Option::None => None,
                        Option::Some(y) => {
                            if !(x.1 + 1 <= y.1 && y.1 < s.len() && s[y.1] == 32) {
                                None
                            } else {
                                match parse_fixed_spec(s, y.1 + 1) {
                                    Option::None => None,
                                    Option::Some(rr) => {
                                        if !(y.1 + 1 <= rr.1 && rr.1 < s.len() && s[rr.1] == 10) {
                                            None
                                        } else {
                                            match parse_lines_spec(s, rr.1 + 1) {
                                                Option::None => None,
                                                Option::Some(rest) => Some(
                                                    seq![(x.0, y.0, rr.0)] + rest,
                                                ),
                                            }
                                        }
                                    },
                                }
                            }
                        },
                    }
                }
            },
        }
    }
}

/// What parsing a whole result text yields: the rectangle and the line
/// triples.
pub open spec fn parse_result_spec(s: Seq<u8>) -> Option<(int, int, Seq<(int, int, int)>)> {
    match parse_fixed_spec(s, 0) {
        Option::None => None,
        Option::Some(w) => {
            if !(0 < w.1 && w.1 < s.len() && s[w.1] == 32) {
                None
            } else {
                match parse_fixed_spec(s, w.1 + 1) {
                    Option::None => None,
                    Option::Some(h) => {
                        if !(w.1 + 1 <= h.1 && h.1 < s.len() && s[h.1] == 10) {
                            None
                        } else {
                            match parse_lines_spec(s, h.1 + 1) {
                                Option::None => None,
                                Option::Some(ts) => Some((w.0, h.0, ts)),
                            }
                        }
                    },
                }
            }
        },
    }
}

/// The mathematical view of a triple list.
pub open spec fn triples_view(v: Seq<(i64, i64, i64)>) -> Seq<(int, int, int)> {
    Seq::new(v.len(), |i: int| (v[i].0 as int, v[i].1 as int, v[i].2 as int))
}

/// Parse a result text: the rectangle dimensions and one
/// coordinate-radius triple per line, exactly as `parse_result_spec`
/// describes.
pub fn parse_result(s: &Vec<u8>) -> (r: Option<(i64, i64, Vec<(i64, i64, i64)>)>)
    ensures
        match r {
            Some(t) => parse_result_spec(s@) == Some(
                (t.0 as int, t.1 as int, triples_view(t.2@)),
            ),
            None => parse_result_spec(s@) is None,
        },
{
    proof {
        vstd::std_specs::vec::axiom_spec_len(s);
    }
    let w = match parse_fixed_at(s, 0) {
        None => {
            return None;
        },
        Some(p) => p,
    };
    if !(w.1 < s.len() && s[w.1] == 32) {
        return None;
    }
    let h = match parse_fixed_at(s, w.1 + 1) {
        None => {
            return None;
        },
        Some(p) => p,
    };
    if !(h.1 < s.len() && s[h.1] == 10) {
        return None;
    }
    let ghost start = h.1 + 1 as int;
    let mut pos: usize = h.1 + 1;
    let mut out: Vec<(i64, i64, i64)> = Vec::new();
    loop
        invariant
            s@.len() <= usize::MAX,
            parse_fixed_spec(s@, 0) == Some((w.0 as int, w.1 as int)),
            0 < w.1 < s@.len() && s@[w.1 as int] == 32,
            parse_fixed_spec(s@, w.1 + 1) == Some((h.0 as int, h.1 as int)),
            w.1 + 1 <= h.1 < s@.len() && s@[h.1 as int] == 10,
            start == h.1 + 1,
            0 <= pos <= s@.len(),
            start <= pos,
            parse_lines_spec(s@, start) == (match parse_lines_spec(s@, pos as int) {
                Option::None => Option::<Seq<(int, int, int)>>::None,
                Option::Some(rest) => Option::Some(triples_view(out@) + rest),
            }),
        ensures
            parse_fixed_spec(s@, 0) == Some((w.0 as int, w.1 as int)),
            0 < w.1 < s@.len() && s@[w.1 as int] == 32,
            parse_fixed_spec(s@, w.1 + 1) == Some((h.0 as int, h.1 as int)),
            w.1 + 1 <= h.1 < s@.len() && s@[h.1 as int] == 10,
            start == h.1 + 1,
            parse_lines_spec(s@, start) == (match parse_lines_spec(s@, pos as int) {
                Option::None => Option::<Seq<(int, int, int)>>::None,
                Option::Some(rest) => Option::Some(triples_view(out@) + rest),
            }),
            pos == s@.len(),
        decreases s@.len() - pos,
    {
        if pos == s.len() {
            break;
        }
        let x = match parse_fixed_at(s, pos) {
            None => {
                assert(parse_lines_spec(s@, pos as int) is None);
                return None;
            },
            Some(p) => p,
        };
        if !(x.1 < s.len() && s[x.1] == 32) {
            assert(parse_lines_spec(s@, pos as int) is None);
            return None;
        }
        let y = match parse_fixed_at(s, x.1 + 1) {
            None => {
                assert(parse_lines_spec(s@, pos as int) is None);
                return None;
            },
            Some(p) => p,
        };
        if !(y.1 < s.len() && s[y.1] == 32) {
            assert(parse_lines_spec(s@, pos as int) is None);
            return None;
        }
        let c = match parse_fixed_at(s, y.1 + 1) {
            None => {
                assert(parse_lines_spec(s@, pos as int) is None);
                return None;
            },
            Some(p) => p,
        };
        if !(c.1 < s.len() && s[c.1] == 10) {
            assert(parse_lines_spec(s@, pos as int) is None);
            return None;
        }
        let ghost out_before = out@;
        out.push((x.0, y.0, c.0));
        proof {
            assert(parse_lines_spec(s@, pos as int) == (match parse_lines_spec(s@, c.1 + 1) {
                Option::None => Option::<Seq<(int, int, int)>>::None,
                Option::Some(rest) => Option::Some(seq![(x.0 as int, y.0 as int, c.0 as int)]
                    + rest),
            }));
            if parse_lines_spec(s@, c.1 + 1) is Some {
                let rest = parse_lines_spec(s@, c.1 + 1)->Some_0;
                assert(triples_view(out@) =~= triples_view(out_before) + seq![
                    (x.0 as int, y.0 as int, c.0 as int),
                ]);
                assert(triples_view(out_before) + (seq![(x.0 as int, y.0 as int, c.0 as int)]
                    + rest) =~= triples_view(out@) + rest);
            }
        }
        pos = c.1 + 1;
    }
    proof {
        assert(parse_lines_spec(s@, pos as int) == Some(Seq::<(int, int, int)>::empty()));
        assert(triples_view(out@) + Seq::<(int, int, int)>::empty() =~= triples_view(out@));
    }
    Some((w.0, h.0, out))
}

#[verifier::rlimit(100)]
proof fn lemma_parse_lines_of(conf: Configuration, s: Seq<Point>, full: Seq<u8>, pos: int, k: int)
    requires
        conf.wf(),
        s.len() == conf.n,
        forall|j: int|
            0 <= j < s.len()
                ==> 0 <= (#[trigger] s[j]).x <= COORD_LIMIT && 0 <= s[j].y <= COORD_LIMIT,
        0 <= k <= s.len(),
        0 <= pos <= full.len(),
        full.subrange(pos, full.len() as int) == result_lines(conf, s, k),
    ensures
        parse_lines_spec(full, pos) == Some(
            Seq::new(
                (s.len() - k) as nat,
                |j: int| (s[k + j].x as int, s[k + j].y as int, slot_radius(conf, k + j) as int),
            ),
        ),
    decreases s.len() - k,
{
    if k == s.len() {
        assert(result_lines(conf, s, k) == Seq::<u8>::empty());
        assert(full.len() - pos == 0);
        assert(Seq::new(
            0,
            |j: int| (s[k + j].x as int, s[k + j].y as int, slot_radius(conf, k + j) as int),
        ) =~= Seq::<(int, int, int)>::empty());
    } else {
        crate::models::lemma_slot_group_in_range(conf.counts@, k);
        let x = s[k].x as int;
        let y = s[k].y as int;
        let c = slot_radius(conf, k) as int;
        let fx = fixed_bytes(x);
        let fy = fixed_bytes(y);
        let fc = fixed_bytes(c);
        let line = line_of3(x, y, c);
        let rest = result_lines(conf, s, k + 1);
        assert(result_lines(conf, s, k) == line + rest);
        assert(full.len() - pos == line.len() + rest.len());
        assert forall|i: int|
            0 <= i < full.len() - pos implies full[pos + i] == (line + rest)[i] by {
            assert(full.subrange(pos, full.len() as int)[i] == (line + rest)[i]);
        }
        lemma_digits_of_are_digits(x / 1000);
        lemma_digits_of_are_digits(y / 1000);
        lemma_digits_of_are_digits(c / 1000);
        let lx = fx.len() as int;
        let ly = fy.len() as int;
        let lc = fc.len() as int;
        let px = pos;
        let py = pos + lx + 1;
        let pc = py + ly + 1;
        let next = pc + lc + 1;
        assert(line.len() == lx + ly + lc + 3);
        assert forall|i: int| 0 <= i < lx implies full[px + i] == fx[i] by {
            assert((line + rest)[i] == line[i]);
            assert(line[i] == fx[i]);
        }
        assert(full.subrange(px, px + lx) =~= fx);
        assert(line[lx] == 32u8);
        assert(full[pos + lx] == (line + rest)[lx]);
        assert(full[px + lx] == 32u8);
        assert forall|i: int| 0 <= i < ly implies full[py + i] == fy[i] by {
            assert((line + rest)[lx + 1 + i] == line[lx + 1 + i]);
            assert(line[lx + 1 + i] == fy[i]);
        }
        assert(full.subrange(py, py + ly) =~= fy);
        assert(line[lx + 1 + ly] == 32u8);
        assert(full[pos + (lx + 1 + ly)] == (line + rest)[lx + 1 + ly]);
        assert(full[py + ly] == 32u8);
        assert forall|i: int| 0 <= i < lc implies full[pc + i] == fc[i] by {
            assert((line + rest)[lx + ly + 2 + i] == line[lx + ly + 2 + i]);
            assert(line[lx + ly + 2 + i] == fc[i]);
        }
        assert(full.subrange(pc, pc + lc) =~= fc);
        assert(line[lx + ly + lc + 2] == 10u8);
        assert(full[pos + (lx + ly + lc + 2)] == (line + rest)[lx + ly + lc + 2]);
        assert(full[pc + lc] == 10u8);
        lemma_fixed_round_trip(full, px, x);
        lemma_fixed_round_trip(full, py, y);
        lemma_fixed_round_trip(full, pc, c);
        assert(full.subrange(next, full.len() as int) =~= rest) by {
            assert forall|i: int|
                0 <= i < full.len() - next implies full.subrange(next, full.len() as int)[i]
                == rest[i] by {
                assert(full[next + i] == (line + rest)[line.len() + i]);
            }
        }
        lemma_parse_lines_of(conf, s, full, next, k + 1);
        let f = |j: int| (s[k + j].x as int, s[k + j].y as int, slot_radius(conf, k + j) as int);
        let f2 = |j: int|
            (s[k + 1 + j].x as int, s[k + 1 + j].y as int, slot_radius(conf, k + 1 + j) as int);
        assert(Seq::new((s.len() - k) as nat, f) =~= seq![(x, y, c)] + Seq::new(
            (s.len() - k - 1) as nat,
            f2,
        ));
    }
}

/// Reading a formatted result back recovers the rectangle and, for every
/// point in slot order, its two coordinates and its group radius, exactly.
/// The group boundaries themselves are not part of the text.
pub proof fn lemma_result_round_trip(conf: Configuration, s: Seq<Point>)
    requires
        conf.wf(),
        s.len() == conf.n,
        forall|j: int|
            0 <= j < s.len()
                ==> 0 <= (#[trigger] s[j]).x <= COORD_LIMIT && 0 <= s[j].y <= COORD_LIMIT,
    ensures
        parse_result_spec(result_bytes(conf, s)) == Some(
            (
                conf.w as int,
                conf.h as int,
                Seq::new(
                    s.len(),
                    |j: int| (s[j].x as int, s[j].y as int, slot_radius(conf, j) as int),
                ),
            ),
        ),
{
    let full = result_bytes(conf, s);
    let w = conf.w as int;
    let h = conf.h as int;
    let fw = fixed_bytes(w);
    let fh = fixed_bytes(h);
    let lw = fw.len() as int;
    let lh = fh.len() as int;
    let hdr = fw + seq![32u8] + fh + seq![10u8];
    let lines = result_lines(conf, s, 0);
    assert(full == hdr + lines);
    lemma_digits_of_are_digits(w / 1000);
    lemma_digits_of_are_digits(h / 1000);
    assert(hdr.len() == lw + lh + 2);
    assert forall|i: int| 0 <= i < lw implies full[i] == fw[i] by {
        assert((hdr + lines)[i] == hdr[i]);
        assert(hdr[i] == fw[i]);
    }
    assert(full.subrange(0, lw) =~= fw);
    assert(hdr[lw] == 32u8);
    assert(full[lw] == 32u8);
    assert forall|i: int| 0 <= i < lh implies full[lw + 1 + i] == fh[i] by {
        assert((hdr + lines)[lw + 1 + i] == hdr[lw + 1 + i]);
        assert(hdr[lw + 1 + i] == fh[i]);
    }
    assert(full.subrange(lw + 1, lw + 1 + lh) =~= fh);
    assert(hdr[lw + 1 + lh] == 10u8);
    assert(full[lw + 1 + lh] == 10u8);
    lemma_fixed_round_trip(full, 0, w);
    lemma_fixed_round_trip(full, lw + 1, h);
    let next = lw + lh + 2;
    assert(full.subrange(next, full.len() as int) =~= lines) by {
        assert forall|i: int|
            0 <= i < full.len() - next implies full.subrange(next, full.len() as int)[i]
            == lines[i] by {
            assert(full[next + i] == (hdr + lines)[hdr.len() + i]);
        }
    }
    lemma_parse_lines_of(conf, s, full, next, 0);
    let f0 = |j: int| (s[0 + j].x as int, s[0 + j].y as int, slot_radius(conf, 0 + j) as int);
    let f = |j: int| (s[j].x as int, s[j].y as int, slot_radius(conf, j) as int);
    assert(Seq::new(s.len(), f0) =~= Seq::new(s.len(), f));
}

/// What parsing one plain integer at `pos` yields.
pub open spec fn parse_uint_spec(s: Seq<u8>, pos: int) -> Option<(int, int)> {
    let e = digits_end(s, pos);
    if e == pos || e - pos > 15 {
        None
    } else {
        Some((digits_val(s, pos, e), e))
    }
}

/// What parsing `m` newline-terminated integer lines from `pos` yields.
pub open spec fn parse_uint_lines(s: Seq<u8>, pos: int, m: nat) -> Option<(Seq<int>, int)>
    decreases m,
{
    if m == 0 {
        Some((Seq::empty(), pos))
    } else {
        match parse_uint_spec(s, pos) {
            Option::None => None,
            Option::Some(v) => {
                if !(pos < v.1 && v.1 < s.len() && s[v.1] == 10) {
                    None
                } else {
                    match parse_uint_lines(s, v.1 + 1, (m - 1) as nat) {
                        Option::None => None,
                        Option::Some(rest) => Some((seq![v.0] + rest.0, rest.1)),
                    }
                }
            },
        }
    }
}

/// What parsing `m` newline-terminated decimal lines from `pos` yields,
/// in thousandths.
pub open spec fn parse_fixed_lines(s: Seq<u8>, pos: int, m: nat) -> Option<(Seq<int>, int)>
    decreases m,
{
    if m == 0 {
        Some((Seq::empty(), pos))
    } else {
        match parse_fixed_spec(s, pos) {
            Option::None => None,
            Option::Some(v) => {
                if !(pos < v.1 && v.1 < s.len() && s[v.1] == 10) {
                    None
                } else {
                    match parse_fixed_lines(s, v.1 + 1, (m - 1) as nat) {
                        Option::None => None,
                        Option::Some(rest) => Some((seq![v.0] + rest.0, rest.1)),
                    }
                }
            },
        }
    }
}

/// What a configuration text denotes: the rectangle, the total point
/// count, the group sizes and the group radii, with the shape
/// `w h\n k n\n` then `k` size lines then `k` radius lines.
pub open spec fn parse_config_spec(s: Seq<u8>) -> Option<(int, int, int, Seq<int>, Seq<int>)> {
    match parse_fixed_spec(s, 0) {
        Option::None => None,
        Option::Some(w) => {
            if !(0 < w.1 && w.1 < s.len() && s[w.1] == 32) {
                None
            } else {
                match parse_fixed_spec(s, w.1 + 1) {
                    Option::None => None,
                    Option::Some(h) => {
                        if !(w.1 + 1 <= h.1 && h.1 < s.len() && s[h.1] == 10) {
                            None
                        } else {
                            match parse_uint_spec(s, h.1 + 1) {
                                Option::None => None,
                                Option::Some(k) => {
                                    if !(h.1 + 1 <= k.1 && k.1 < s.len() && s[k.1] == 32) {
                                        None
                                    } else {
                                        match parse_uint_spec(s, k.1 + 1) {
                                            Option::None => None,
                                            Option::Some(n) => {
                                                if !(k.1 + 1 <= n.1 && n.1 < s.len() && s[n.1]
                                                    == 10) {
                                                    None
                                                } else {
                                                    match parse_uint_lines(
                                                        s,
                                                        n.1 + 1,
                                                        k.0 as nat,
                                                    ) {
                                                        Option::None => None,
                                                        Option::Some(cs) => {
                                                            match parse_fixed_lines(
                                                                s,
                                                                cs.1,
                                                                k.0 as nat,
                                                            ) {
                                                                Option::None => None,
                                                                Option::Some(rs) => Some(
                                                                    (w.0, h.0, n.0, cs.0, rs.0),
                                                                ),
                                                            }
                                                        },
                                                    }
                                                }
                                            },
                                        }
                                    }
                                },
                            }
                        }
                    },
                }
            }
        },
    }
}

/// Sum of a value list.
pub open spec fn sum_ints(v: Seq<int>) -> int
    decreases v.len(),
{
    if v.len() == 0 {
        0
    } else {
        sum_ints(v.drop_last()) + v.last()
    }
}

/// The structural checks a parsed configuration must pass: group sizes
/// summing to the point count, and every dimension representable.
pub open spec fn config_values_ok(t: (int, int, int, Seq<int>, Seq<int>)) -> bool {
    &&& sum_ints(t.3) == t.2
    &&& 0 <= t.2 <= 1_000_000
    &&& t.0 <= DIM_LIMIT
    &&& t.1 <= DIM_LIMIT
    &&& forall|g: int| 0 <= g < t.4.len() ==> #[trigger] t.4[g] <= DIM_LIMIT
}

pub open spec fn usizes_view(v: Seq<usize>) -> Seq<int> {
    Seq::new(v.len(), |i: int| v[i] as int)
}

pub open spec fn i64s_view(v: Seq<i64>) -> Seq<int> {
    Seq::new(v.len(), |i: int| v[i] as int)
}

/// Why a configuration text was rejected: it does not match the grammar,
/// or its numbers contradict each other or the machine limits.
#[derive(PartialEq, Eq, Structural, Debug, Clone, Copy)]
pub enum ConfigError {
    Malformed,
    Inconsistent,
}

/// Parse one plain integer at `pos`, as `parse_uint_spec` describes.
fn parse_uint_at(s: &Vec<u8>, pos: usize) -> (r: Option<(i64, usize)>)
    requires
        pos <= s@.len(),
    ensures
        match r {
            Some(p) => {
                &&& parse_uint_spec(s@, pos as int) == Some((p.0 as int, p.1 as int))
                &&& pos < p.1 <= s@.len()
                &&& 0 <= p.0 < 1_000_000_000_000_000
            },
            None => parse_uint_spec(s@, pos as int) is None,
        },
{
    proof {
        lemma_pow10_vals();
    }
    match scan_digits(s, pos, 15) {
        None => None,
        Some(p) => {
            proof {
                lemma_pow10_mono(p.1 as int - pos as int, 15);
            }
            Some(p)
        },
    }
}

proof fn lemma_sum_ints_take(v: Seq<int>, m: int)
    requires
        0 <= m < v.len(),
    ensures
        sum_ints(v.take(m + 1)) == sum_ints(v.take(m)) + v[m],
{
    assert(v.take(m + 1).drop_last() =~= v.take(m));
    assert(v.take(m + 1).last() == v[m]);
}

proof fn lemma_sum_ints_ge(v: Seq<int>, i: int)
    requires
        0 <= i < v.len(),
        forall|j: int| 0 <= j < v.len() ==> #[trigger] v[j] >= 0,
    ensures
        sum_ints(v) >= v[i],
    decreases v.len(),
{
    if i == v.len() - 1 {
        lemma_sum_ints_nonneg(v.drop_last());
    } else {
        lemma_sum_ints_ge(v.drop_last(), i);
        assert(v.drop_last()[i] == v[i]);
    }
}

proof fn lemma_sum_ints_nonneg(v: Seq<int>)
    requires
        forall|j: int| 0 <= j < v.len() ==> #[trigger] v[j] >= 0,
    ensures
        sum_ints(v) >= 0,
    decreases v.len(),
{
    if v.len() > 0 {
        lemma_sum_ints_nonneg(v.drop_last());
    }
}

proof fn lemma_count_prefix_is_sum(u: Seq<usize>, m: int)
    requires
        0 <= m <= u.len(),
    ensures
        crate::models::count_prefix(u, m) == sum_ints(usizes_view(u).take(m)),
    decreases m,
{
    if m > 0 {
        lemma_count_prefix_is_sum(u, m - 1);
        lemma_sum_ints_take(usizes_view(u), m - 1);
    } else {
        assert(usizes_view(u).take(0) =~= Seq::<int>::empty());
    }
}

/// Parse and validate a configuration text. A text outside the grammar is
/// `Malformed`; one whose numbers contradict each other or leave the
/// machine limits is `Inconsistent`; any other text yields the well-formed
/// configuration it denotes.
pub fn parse_config(s: &Vec<u8>) -> (r: Result<Configuration, ConfigError>)
    ensures
        match r {
            Ok(c) => {
                &&& parse_config_spec(s@) == Some(
                    (
                        c.w as int,
                        c.h as int,
                        c.n as int,
                        usizes_view(c.counts@),
                        i64s_view(c.radius@),
                    ),
                )
                &&& c.wf()
            },
            Err(e) => {
                &&& (e == ConfigError::Malformed <==> parse_config_spec(s@) is None)
                &&& (e == ConfigError::Inconsistent ==> parse_config_spec(s@) is Some
                    && !config_values_ok(parse_config_spec(s@)->Some_0))
            },
        },
{
    proof {
        vstd::std_specs::vec::axiom_spec_len(s);
    }
    let w = match parse_fixed_at(s, 0) {
        None => {
            return Err(ConfigError::Malformed);
        },
        Some(p) => p,
    };
    if !(w.1 < s.len() && s[w.1] == 32) {
        return Err(ConfigError::Malformed);
    }
    let h = match parse_fixed_at(s, w.1 + 1) {
        None => {
            return Err(ConfigError::Malformed);
        },
        Some(p) => p,
    };
    if !(h.1 < s.len() && s[h.1] == 10) {
        return Err(ConfigError::Malformed);
    }
    let k = match parse_uint_at(s, h.1 + 1) {
        None => {
            return Err(ConfigError::Malformed);
        },
        Some(p) => p,
    };
    if !(k.1 < s.len() && s[k.1] == 32) {
        return Err(ConfigError::Malformed);
    }
    let n = match parse_uint_at(s, k.1 + 1) {
        None => {
            return Err(ConfigError::Malformed);
        },
        Some(p) => p,
    };
    if !(n.1 < s.len() && s[n.1] == 10) {
        return Err(ConfigError::Malformed);
    }
    let ghost hdr_ok = true;
    let ghost cstart = n.1 + 1 as int;
    let mut counts_raw: Vec<i64> = Vec::new();
    let mut pos: usize = n.1 + 1;
    let mut i: i64 = 0;
    while i < k.0
        invariant
            s@.len() <= usize::MAX,
            0 <= i <= k.0,
            0 <= k.0,
            pos <= s@.len(),
            counts_raw@.len() == i,
            forall|j: int| 0 <= j < i ==> 0 <= #[trigger] counts_raw@[j] < 1_000_000_000_000_000,
            parse_config_spec(s@) == (match parse_uint_lines(s@, cstart, k.0 as nat) {
                Option::None => Option::<(int, int, int, Seq<int>, Seq<int>)>::None,
                Option::Some(cs) => (match parse_fixed_lines(s@, cs.1, k.0 as nat) {
                    Option::None => Option::<(int, int, int, Seq<int>, Seq<int>)>::None,
                    Option::Some(rs) => Option::Some(
                        (w.0 as int, h.0 as int, n.0 as int, cs.0, rs.0),
                    ),
                }),
            }),
            parse_uint_lines(s@, cstart, k.0 as nat) == (match parse_uint_lines(
                s@,
                pos as int,
                (k.0 - i) as nat,
            ) {
                Option::None => Option::<(Seq<int>, int)>::None,
                Option::Some(rest) => Option::Some((i64s_view(counts_raw@) + rest.0, rest.1)),
            }),
        decreases k.0 - i,
    {
        let v = match parse_uint_at(s, pos) {
            None => {
                return Err(ConfigError::Malformed);
            },
            Some(p) => p,
        };
        if !(v.1 < s.len() && s[v.1] == 10) {
            return Err(ConfigError::Malformed);
        }
        let ghost before = counts_raw@;
        counts_raw.push(v.0);
        proof {
            if parse_uint_lines(s@, v.1 + 1, (k.0 - i - 1) as nat) is Some {
                let rest = parse_uint_lines(s@, v.1 + 1, (k.0 - i - 1) as nat)->Some_0;
                assert(i64s_view(counts_raw@) =~= i64s_view(before) + seq![v.0 as int]);
                assert(i64s_view(before) + (seq![v.0 as int] + rest.0) =~= i64s_view(counts_raw@)
                    + rest.0);
            }
        }
        pos = v.1 + 1;
        i = i + 1;
    }
    proof {
        assert(parse_uint_lines(s@, pos as int, 0) == Some((Seq::<int>::empty(), pos as int)));
        assert(i64s_view(counts_raw@) + Seq::<int>::empty() =~= i64s_view(counts_raw@));
    }
    let ghost rstart = pos as int;
    let mut radius_raw: Vec<i64> = Vec::new();
    let mut i: i64 = 0;
    while i < k.0
        invariant
            s@.len() <= usize::MAX,
            0 <= i <= k.0,
            0 <= k.0,
            pos <= s@.len(),
            radius_raw@.len() == i,
            forall|j: int| 0 <= j < i ==> 0 <= #[trigger] radius_raw@[j],
            parse_config_spec(s@) == (match parse_uint_lines(s@, cstart, k.0 as nat) {
                Option::None => Option::<(int, int, int, Seq<int>, Seq<int>)>::None,
                Option::Some(cs) => (match parse_fixed_lines(s@, cs.1, k.0 as nat) {
                    Option::None => Option::<(int, int, int, Seq<int>, Seq<int>)>::None,
                    Option::Some(rs) => Option::Some(
                        (w.0 as int, h.0 as int, n.0 as int, cs.0, rs.0),
                    ),
                }),
            }),
            parse_uint_lines(s@, cstart, k.0 as nat) == Option::Some(
                (i64s_view(counts_raw@), rstart),
            ),
            parse_fixed_lines(s@, rstart, k.0 as nat) == (match parse_fixed_lines(
                s@,
                pos as int,
                (k.0 - i) as nat,
            ) {
                Option::None => Option::<(Seq<int>, int)>::None,
                Option::Some(rest) => Option::Some((i64s_view(radius_raw@) + rest.0, rest.1)),
            }),
        decreases k.0 - i,
    {
        let v = match parse_fixed_at(s, pos) {
            None => {
                return Err(ConfigError::Malformed);
            },
            Some(p) => p,
        };
        if !(v.1 < s.len() && s[v.1] == 10) {
            return Err(ConfigError::Malformed);
        }
        let ghost before = radius_raw@;
        radius_raw.push(v.0);
        proof {
            if parse_fixed_lines(s@, v.1 + 1, (k.0 - i - 1) as nat) is Some {
                let rest = parse_fixed_lines(s@, v.1 + 1, (k.0 - i - 1) as nat)->Some_0;
                assert(i64s_view(radius_raw@) =~= i64s_view(before) + seq![v.0 as int]);
                assert(i64s_view(before) + (seq![v.0 as int] + rest.0) =~= i64s_view(radius_raw@)
                    + rest.0);
            }
        }
        pos = v.1 + 1;
        i = i + 1;
    }
    proof {
        assert(parse_fixed_lines(s@, pos as int, 0) == Some((Seq::<int>::empty(), pos as int)));
        assert(i64s_view(radius_raw@) + Seq::<int>::empty() =~= i64s_view(radius_raw@));
    }
    let ghost parsed = (
        w.0 as int,
        h.0 as int,
        n.0 as int,
        i64s_view(counts_raw@),
        i64s_view(radius_raw@),
    );
    proof {
        assert(parse_config_spec(s@) == Some(parsed));
    }
    if n.0 > 1_000_000 {
        return Err(ConfigError::Inconsistent);
    }
    if w.0 > DIM_LIMIT || h.0 > DIM_LIMIT {
        return Err(ConfigError::Inconsistent);
    }
    proof {
        vstd::std_specs::vec::axiom_spec_len(&counts_raw);
        vstd::std_specs::vec::axiom_spec_len(&radius_raw);
    }
    let mut sum: i128 = 0;
    let mut i: usize = 0;
    while i < counts_raw.len()
        invariant
            counts_raw@.len() <= usize::MAX,
            forall|j: int| 0 <= j < counts_raw@.len() ==> 0 <= #[trigger] counts_raw@[j]
                < 1_000_000_000_000_000,
            parse_config_spec(s@) == Option::Some(
                (
                    w.0 as int,
                    h.0 as int,
                    n.0 as int,
                    i64s_view(counts_raw@),
                    i64s_view(radius_raw@),
                ),
            ),
            0 <= i <= counts_raw@.len(),
            sum as int == sum_ints(i64s_view(counts_raw@).take(i as int)),
            0 <= sum as int <= (i as int) * 1_000_000_000_000_000,
        decreases counts_raw@.len() - i,
    {
        proof {
            lemma_sum_ints_take(i64s_view(counts_raw@), i as int);
            assert((i as int + 1) * 1_000_000_000_000_000 == (i as int) * 1_000_000_000_000_000
                + 1_000_000_000_000_000) by (nonlinear_arith)
            {}
            assert((i as int + 1) * 1_000_000_000_000_000 < i128::MAX) by (nonlinear_arith)
                requires 0 <= i as int + 1 <= usize::MAX as int + 1
            {}
        }
        sum = sum + (counts_raw[i] as i128);
        i = i + 1;
    }
    proof {
        assert(i64s_view(counts_raw@).take(counts_raw@.len() as int) =~= i64s_view(counts_raw@));
    }
    if sum != (n.0 as i128) {
        return Err(ConfigError::Inconsistent);
    }
    let mut counts: Vec<usize> = Vec::new();
    let mut i: usize = 0;
    while i < counts_raw.len()
        invariant
            counts_raw@.len() <= usize::MAX,
            forall|j: int| 0 <= j < counts_raw@.len() ==> 0 <= #[trigger] counts_raw@[j],
            sum_ints(i64s_view(counts_raw@)) == n.0 as int,
            0 <= n.0 <= 1_000_000,
            0 <= i <= counts_raw@.len(),
            counts@.len() == i,
            forall|j: int| 0 <= j < i ==> #[trigger] counts@[j] as int == counts_raw@[j] as int,
        decreases counts_raw@.len() - i,
    {
        proof {
            lemma_sum_ints_ge(i64s_view(counts_raw@), i as int);
        }
        counts.push(counts_raw[i] as usize);
        i = i + 1;
    }
    let mut i: usize = 0;
    while i < radius_raw.len()
        invariant
            radius_raw@.len() <= usize::MAX,
            parse_config_spec(s@) == Option::Some(
                (
                    w.0 as int,
                    h.0 as int,
                    n.0 as int,
                    i64s_view(counts_raw@),
                    i64s_view(radius_raw@),
                ),
            ),
            0 <= i <= radius_raw@.len(),
            forall|j: int| 0 <= j < i ==> #[trigger] radius_raw@[j] <= DIM_LIMIT,
        decreases radius_raw@.len() - i,
    {
        if radius_raw[i] > DIM_LIMIT {
            proof {
                assert(i64s_view(radius_raw@)[i as int] > DIM_LIMIT);
                assert(parse_config_spec(s@) is Some);
                let t = parse_config_spec(s@)->Some_0;
                assert(t.4 == i64s_view(radius_raw@));
                assert(!(t.4[i as int] <= DIM_LIMIT));
                assert(!config_values_ok(t));
            }
            return Err(ConfigError::Inconsistent);
        }
        i = i + 1;
    }
    let c = Configuration {
        w: w.0,
        h: h.0,
        n: n.0 as usize,
        counts,
        radius: radius_raw,
    };
    proof {
        assert(usizes_view(c.counts@) =~= i64s_view(counts_raw@));
        lemma_count_prefix_is_sum(c.counts@, c.counts@.len() as int);
        assert(usizes_view(c.counts@).take(c.counts@.len() as int) =~= usizes_view(c.counts@));
        assert forall|g: int|
            0 <= g < c.radius@.len() implies 0 <= #[trigger] c.radius@[g] <= DIM_LIMIT by {
            assert(i64s_view(c.radius@)[g] == c.radius@[g] as int);
        }
        assert(config_values_ok(parsed));
    }
    Ok(c)
}

} // verus!
