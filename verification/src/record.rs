//! The output record and its wire shape: one JSON object per record,
//! `{"node":N,"metric":M,"query":Q,"hour":"...","value":V,"disruption":D}`.
//! Encoding is specified byte for byte; parsing accepts a byte line only if
//! re-encoding the parsed record reproduces the input exactly, so a
//! successful parse always returns the record whose encoding the input is.

use vstd::prelude::*;
use crate::assembler::Assignment;
use crate::timestamp::Timestamp;

verus! {

pub open spec fn is_digit(b: u8) -> bool {
    48 <= b <= 57
}

/// The ASCII digit for `x` in `[0, 9]`.
pub open spec fn digit_of(x: int) -> u8 {
    (48 + x) as u8
}

/// The decimal digits of `n`, most significant first, no leading zeros.
pub open spec fn dec_bytes(n: nat) -> Seq<u8>
    decreases n,
{
    if n < 10 {
        seq![digit_of(n as int)]
    } else {
        dec_bytes(n / 10) + seq![digit_of((n % 10) as int)]
    }
}

/// `YYYY-MM-DDTHH:00:00`, nineteen bytes.
pub open spec fn ts_bytes(t: Timestamp) -> Seq<u8> {
    seq![
        digit_of(t.year as int / 1000),
        digit_of((t.year as int / 100) % 10),
        digit_of((t.year as int / 10) % 10),
        digit_of(t.year as int % 10),
        45u8,
        digit_of(t.month as int / 10),
        digit_of(t.month as int % 10),
        45u8,
        digit_of(t.day as int / 10),
        digit_of(t.day as int % 10),
        84u8,
        digit_of(t.hour as int / 10),
        digit_of(t.hour as int % 10),
        58u8,
        48u8,
        48u8,
        58u8,
        48u8,
        48u8,
    ]
}

/// A byte a serialized floating-point value may contain: a digit, `-`, `+`,
/// `.`, `e` or `E`. None of these collides with the framing bytes.
pub open spec fn token_byte_ok(b: u8) -> bool {
    is_digit(b) || b == 45 || b == 43 || b == 46 || b == 101 || b == 69
}

pub open spec fn token_ok(s: Seq<u8>) -> bool {
    s.len() >= 1 && forall|i: int| 0 <= i < s.len() ==> token_byte_ok(#[trigger] s[i])
}

/// `{"node":`
pub open spec fn lit_node() -> Seq<u8> {
    seq![123u8, 34u8, 110u8, 111u8, 100u8, 101u8, 34u8, 58u8]
}

/// `,"metric":`
pub open spec fn lit_metric() -> Seq<u8> {
    seq![44u8, 34u8, 109u8, 101u8, 116u8, 114u8, 105u8, 99u8, 34u8, 58u8]
}

/// `,"query":`
pub open spec fn lit_query() -> Seq<u8> {
    seq![44u8, 34u8, 113u8, 117u8, 101u8, 114u8, 121u8, 34u8, 58u8]
}

/// `,"hour":"`
pub open spec fn lit_hour() -> Seq<u8> {
    seq![44u8, 34u8, 104u8, 111u8, 117u8, 114u8, 34u8, 58u8, 34u8]
}

/// `","value":`
pub open spec fn lit_value() -> Seq<u8> {
    seq![34u8, 44u8, 34u8, 118u8, 97u8, 108u8, 117u8, 101u8, 34u8, 58u8]
}

/// `,"disruption":`
pub open spec fn lit_disruption() -> Seq<u8> {
    seq![44u8, 34u8, 100u8, 105u8, 115u8, 114u8, 117u8, 112u8, 116u8, 105u8, 111u8, 110u8, 34u8,
        58u8]
}

/// One record of the generated timeline, ready for the wire. The value is
/// carried as its serialized byte token: the library selects the regime and
/// frames the record, the caller turns the scaled Gaussian sample into the
/// token.
#[derive(Clone, Debug, PartialEq, Eq)]
pub struct Record {
    pub node: usize,
    pub metric: usize,
    pub query: usize,
    pub hour: Timestamp,
    pub value: Vec<u8>,
    pub disruption: usize,
}

impl Record {
    pub open spec fn wf(&self) -> bool {
        &&& self.hour.wf()
        &&& token_ok(self.value@)
        &&& self.disruption <= 3
    }
}

/// The full wire line of one record.
pub open spec fn record_bytes(r: Record) -> Seq<u8> {
    lit_node() + dec_bytes(r.node as nat) + lit_metric() + dec_bytes(r.metric as nat) + lit_query()
        + dec_bytes(r.query as nat) + lit_hour() + ts_bytes(r.hour) + lit_value() + r.value@
        + lit_disruption() + dec_bytes(r.disruption as nat) + seq![125u8]
}

/// A record from one assignment: the caller supplies the hour's timestamp
/// and the serialized value.
pub fn make_record(a: &Assignment, hour_ts: Timestamp, value: Vec<u8>) -> (r: Record)
    ensures
        r.node == a.node,
        r.metric == a.metric,
        r.query == a.query,
        r.hour == hour_ts,
        r.value@ == value@,
        r.disruption == a.disruption_tag,
{
    Record {
        node: a.node,
        metric: a.metric,
        query: a.query,
        hour: hour_ts,
        value,
        disruption: a.disruption_tag,
    }
}

/// Append the decimal digits of `n`.
fn push_dec(out: &mut Vec<u8>, n: usize)
    ensures
        final(out)@ == old(out)@ + dec_bytes(n as nat),
    decreases n,
{
    if n >= 10 {
        proof {
            assert(n / 10 < n) by (nonlinear_arith)
                requires
                    n >= 10,
            {
            }
        }
        push_dec(out, n / 10);
    }
    out.push(48 + (n % 10) as u8);
    proof {
        assert(out@ =~= old(out)@ + dec_bytes(n as nat));
    }
}

/// The nineteen bytes of a timestamp.
pub fn format_timestamp(t: &Timestamp) -> (out: Vec<u8>)
    requires
        t.wf(),
    ensures
        out@ == ts_bytes(*t),
{
    let mut out: Vec<u8> = Vec::new();
    out.push(48 + (t.year / 1000) as u8);
    out.push(48 + ((t.year / 100) % 10) as u8);
    out.push(48 + ((t.year / 10) % 10) as u8);
    out.push(48 + (t.year % 10) as u8);
    out.push(45);
    out.push(48 + (t.month / 10) as u8);
    out.push(48 + (t.month % 10) as u8);
    out.push(45);
    out.push(48 + (t.day / 10) as u8);
    out.push(48 + (t.day % 10) as u8);
    out.push(84);
    out.push(48 + (t.hour / 10) as u8);
    out.push(48 + (t.hour % 10) as u8);
    out.push(58);
    out.push(48);
    out.push(48);
    out.push(58);
    out.push(48);
    out.push(48);
    proof {
        assert(out@ =~= ts_bytes(*t));
    }
    out
}

/// The wire line of one record, exactly `record_bytes`.
#[verifier::rlimit(60)]
pub fn encode_record(r: &Record) -> (out: Vec<u8>)
    requires
        r.hour.wf(),
    ensures
        out@ == record_bytes(*r),
{
    let mut out: Vec<u8> = Vec::new();
    out.push(123);
    out.push(34);
    out.push(110);
    out.push(111);
    out.push(100);
    out.push(101);
    out.push(34);
    out.push(58);
    proof {
        assert(out@ =~= lit_node());
    }
    push_dec(&mut out, r.node);
    let ghost g1 = lit_node() + dec_bytes(r.node as nat);
    out.push(44);
    out.push(34);
    out.push(109);
    out.push(101);
    out.push(116);
    out.push(114);
    out.push(105);
    out.push(99);
    out.push(34);
    out.push(58);
    proof {
        assert(out@ =~= g1 + lit_metric());
    }
    push_dec(&mut out, r.metric);
    let ghost g2 = g1 + lit_metric() + dec_bytes(r.metric as nat);
    out.push(44);
    out.push(34);
    out.push(113);
    out.push(117);
    out.push(101);
    out.push(114);
    out.push(121);
    out.push(34);
    out.push(58);
    proof {
        assert(out@ =~= g2 + lit_query());
    }
    push_dec(&mut out, r.query);
    let ghost g3 = g2 + lit_query() + dec_bytes(r.query as nat);
    out.push(44);
    out.push(34);
    out.push(104);
    out.push(111);
    out.push(117);
    out.push(114);
    out.push(34);
    out.push(58);
    out.push(34);
    proof {
        assert(out@ =~= g3 + lit_hour());
    }
    let mut tsv = format_timestamp(&r.hour);
    out.append(&mut tsv);
    let ghost g4 = g3 + lit_hour() + ts_bytes(r.hour);
    out.push(34);
    out.push(44);
    out.push(34);
    out.push(118);
    out.push(97);
    out.push(108);
    out.push(117);
    out.push(101);
    out.push(34);
    out.push(58);
    proof {
        assert(out@ =~= g4 + lit_value());
    }
    out.extend_from_slice(r.value.as_slice());
    let ghost g5 = g4 + lit_value() + r.value@;
    out.push(44);
    out.push(34);
    out.push(100);
    out.push(105);
    out.push(115);
    out.push(114);
    out.push(117);
    out.push(112);
    out.push(116);
    out.push(105);
    out.push(111);
    out.push(110);
    out.push(34);
    out.push(58);
    proof {
        assert(out@ =~= g5 + lit_disruption());
    }
    push_dec(&mut out, r.disruption);
    out.push(125);
    proof {
        assert(out@ =~= record_bytes(*r));
    }
    out
}

/// Digits at `pos` onward read as a number, with the first position past
/// them; `None` on a missing digit or a value beyond `usize`, and never
/// `None` where the rendering of a number sits at `pos`.
fn parse_dec(s: &Vec<u8>, pos: usize) -> (r: Option<(usize, usize)>)
    ensures
        r matches Some(p) ==> pos <= p.1 <= s@.len(),
        forall|n: nat|
            dec_at(s@, pos as int, n) ==> (r == Some(
                (n as usize, (pos + dec_bytes(n).len()) as usize),
            )),
{
    let ghost sv = s@;
    let n_len: usize = s.len();
    if pos >= n_len {
        proof {
            assert forall|n: nat| !dec_at(sv, pos as int, n) by {
                if dec_at(sv, pos as int, n) {
                    lemma_dec_bytes_digits(n);
                }
            }
        }
        return None;
    }
    let mut i: usize = pos;
    let mut acc: usize = 0;
    proof {
        assert(sv.subrange(pos as int, pos as int) =~= Seq::<u8>::empty());
    }
    while i < n_len && s[i] >= 48 && s[i] <= 57
        invariant
            pos <= i <= n_len,
            sv == s@,
            n_len == sv.len(),
            forall|k: int| pos <= k < i ==> is_digit(#[trigger] sv[k]),
            acc == dec_val(sv.subrange(pos as int, i as int)),
        decreases n_len - i,
    {
        let d = (s[i] - 48) as usize;
        if acc > (usize::MAX - d) / 10 {
            proof {
                assert forall|n: nat| !dec_at(sv, pos as int, n) by {
                    if dec_at(sv, pos as int, n) {
                        lemma_dec_bytes_digits(n);
                        let l = dec_bytes(n).len() as int;
                        let j = pos + l;
                        if j <= i {
                            assert(is_digit(sv[j]));
                            assert(false);
                        }
                        assert(sv.subrange(pos as int, i + 1) =~= dec_bytes(n).subrange(
                            0,
                            i + 1 - pos,
                        ));
                        lemma_dec_val_prefix(dec_bytes(n), i + 1 - pos);
                        lemma_dec_val_of_dec_bytes(n);
                        assert(sv.subrange(pos as int, i + 1).drop_last() =~= sv.subrange(
                            pos as int,
                            i as int,
                        ));
                        assert(dec_val(sv.subrange(pos as int, i + 1)) == acc * 10 + d);
                        vstd::arithmetic::div_mod::lemma_fundamental_div_mod(
                            (usize::MAX - d) as int,
                            10,
                        );
                        assert(acc * 10 + d > usize::MAX);
                        assert(false);
                    }
                }
            }
            return None;
        }
        proof {
            vstd::arithmetic::div_mod::lemma_fundamental_div_mod((usize::MAX - d) as int, 10);
            assert(acc * 10 + d <= usize::MAX);
            assert(sv.subrange(pos as int, i + 1).drop_last() =~= sv.subrange(
                pos as int,
                i as int,
            ));
        }
        acc = acc * 10 + d;
        i = i + 1;
    }
    if i == pos {
        proof {
            assert forall|n: nat| !dec_at(sv, pos as int, n) by {
                if dec_at(sv, pos as int, n) {
                    lemma_dec_bytes_digits(n);
                    assert(sv[pos as int] == dec_bytes(n)[0]);
                    assert(is_digit(sv[pos as int]));
                    assert(false);
                }
            }
        }
        return None;
    }
    proof {
        assert forall|n: nat|
            dec_at(sv, pos as int, n) implies (acc == n && i == pos + dec_bytes(n).len()) by {
            lemma_dec_bytes_digits(n);
            let l = dec_bytes(n).len() as int;
            let j = pos + l;
            if j < i {
                assert(is_digit(sv[j]));
                assert(false);
            }
            if j > i {
                assert(sv[i as int] == dec_bytes(n)[i - pos]);
                assert(is_digit(sv[i as int]));
                assert(i < sv.len());
                assert(false);
            }
            assert(sv.subrange(pos as int, i as int) == dec_bytes(n));
            lemma_dec_val_of_dec_bytes(n);
        }
    }
    Some((acc, i))
}

/// Nineteen bytes at `pos` read as a timestamp on a full hour; `None` when
/// the shape or any calendar range is off, and never `None` when the bytes
/// are the rendering of a well-formed timestamp.
pub fn parse_timestamp(s: &Vec<u8>, pos: usize) -> (r: Option<Timestamp>)
    requires
        pos + 19 <= s@.len(),
    ensures
        r matches Some(t) ==> t.wf(),
        forall|t: Timestamp| ts_wire_match(s@, pos as int, t) ==> (r == Some(t)),
{
    let ghost sv = s@;
    let n_len: usize = s.len();
    proof {
        assert(pos + 19 <= n_len);
    }
    let mut ds: [usize; 8] = [0, 0, 0, 0, 0, 0, 0, 0];
    let mut k: usize = 0;
    while k < 8
        invariant
            k <= 8,
            sv == s@,
            n_len == s@.len(),
            pos + 19 <= n_len,
            forall|j: int|
                0 <= j < k ==> #[trigger] ds@[j] <= 9 && ds@[j] + 48 == sv[pos + ts_digit_pos(j)],
        decreases 8 - k,
    {
        let off: usize = if k < 4 {
            k
        } else if k < 6 {
            k + 1
        } else {
            k + 2
        };
        proof {
            assert(off == ts_digit_pos(k as int));
        }
        let b = s[pos + off];
        if !(b >= 48 && b <= 57) {
            proof {
                assert forall|t: Timestamp| !ts_wire_match(sv, pos as int, t) by {
                    if ts_wire_match(sv, pos as int, t) {
                        lemma_ts_fields_from_bytes(sv, pos as int, t);
                        assert(is_digit(sv[pos + ts_digit_pos(k as int)]));
                    }
                }
            }
            return None;
        }
        ds[k] = (b - 48) as usize;
        k = k + 1;
    }
    if s[pos + 4] != 45 || s[pos + 7] != 45 || s[pos + 10] != 84 {
        proof {
            assert forall|t: Timestamp| !ts_wire_match(sv, pos as int, t) by {
                if ts_wire_match(sv, pos as int, t) {
                    lemma_ts_fields_from_bytes(sv, pos as int, t);
                }
            }
        }
        return None;
    }
    let hb0 = s[pos + 11];
    let hb1 = s[pos + 12];
    if !(hb0 >= 48 && hb0 <= 57 && hb1 >= 48 && hb1 <= 57) {
        proof {
            assert forall|t: Timestamp| !ts_wire_match(sv, pos as int, t) by {
                if ts_wire_match(sv, pos as int, t) {
                    lemma_ts_fields_from_bytes(sv, pos as int, t);
                }
            }
        }
        return None;
    }
    if s[pos + 13] != 58 || s[pos + 14] != 48 || s[pos + 15] != 48 || s[pos + 16] != 58 || s[pos
        + 17] != 48 || s[pos + 18] != 48 {
        proof {
            assert forall|t: Timestamp| !ts_wire_match(sv, pos as int, t) by {
                if ts_wire_match(sv, pos as int, t) {
                    lemma_ts_fields_from_bytes(sv, pos as int, t);
                }
            }
        }
        return None;
    }
    let year = ds[0] * 1000 + ds[1] * 100 + ds[2] * 10 + ds[3];
    let month = ds[4] * 10 + ds[5];
    let day = ds[6] * 10 + ds[7];
    let hour = ((hb0 - 48) as usize) * 10 + (hb1 - 48) as usize;
    proof {
        assert(ds@[0] + 48 == sv[pos + ts_digit_pos(0)]);
        assert(ds@[1] + 48 == sv[pos + ts_digit_pos(1)]);
        assert(ds@[2] + 48 == sv[pos + ts_digit_pos(2)]);
        assert(ds@[3] + 48 == sv[pos + ts_digit_pos(3)]);
        assert(ds@[4] + 48 == sv[pos + ts_digit_pos(4)]);
        assert(ds@[5] + 48 == sv[pos + ts_digit_pos(5)]);
        assert(ds@[6] + 48 == sv[pos + ts_digit_pos(6)]);
        assert(ds@[7] + 48 == sv[pos + ts_digit_pos(7)]);
    }
    if year < 1000 || month < 1 || month > 12 {
        proof {
            assert forall|t: Timestamp| !ts_wire_match(sv, pos as int, t) by {
                if ts_wire_match(sv, pos as int, t) {
                    lemma_ts_fields_from_bytes(sv, pos as int, t);
                    assert(year == t.year && month == t.month);
                }
            }
        }
        return None;
    }
    let t2 = Timestamp { year, month, day, hour };
    let dim = crate::timestamp::days_in_month_x(year, month);
    if day < 1 || day > dim || hour >= 24 {
        proof {
            assert forall|t: Timestamp| !ts_wire_match(sv, pos as int, t) by {
                if ts_wire_match(sv, pos as int, t) {
                    lemma_ts_fields_from_bytes(sv, pos as int, t);
                    assert(year == t.year && month == t.month && day == t.day && hour == t.hour);
                }
            }
        }
        return None;
    }
    proof {
        assert forall|t: Timestamp| ts_wire_match(sv, pos as int, t) implies t2 == t by {
            lemma_ts_fields_from_bytes(sv, pos as int, t);
            assert(year == t.year && month == t.month && day == t.day && hour == t.hour);
        }
    }
    Some(t2)
}

/// Where the `j`-th digit of a timestamp sits among its nineteen bytes:
/// four year digits, then two each for month and day around the separators.
spec fn ts_digit_pos(j: int) -> int {
    if j < 4 {
        j
    } else if j < 6 {
        j + 1
    } else {
        j + 2
    }
}

/// A four-digit number is recombined from its printed digits.
proof fn lemma_year_recombine(y: int)
    requires
        0 <= y <= 9999,
    ensures
        y == 1000 * (y / 1000) + 100 * ((y / 100) % 10) + 10 * ((y / 10) % 10) + y % 10,
        0 <= y / 1000 <= 9,
{
    lemma_div_chain(y);
    vstd::arithmetic::div_mod::lemma_fundamental_div_mod(y, 10);
    vstd::arithmetic::div_mod::lemma_fundamental_div_mod(y / 10, 10);
    vstd::arithmetic::div_mod::lemma_fundamental_div_mod(y / 100, 10);
    vstd::arithmetic::div_mod::lemma_fundamental_div_mod(y, 1000);
}

/// The nineteen bytes of a well-formed timestamp, read back as its fields.
pub open spec fn ts_wire_match(s: Seq<u8>, pos: int, t: Timestamp) -> bool {
    t.wf() && s.subrange(pos, pos + 19) == ts_bytes(t)
}

proof fn lemma_ts_fields_from_bytes(s: Seq<u8>, pos: int, t: Timestamp)
    requires
        0 <= pos,
        pos + 19 <= s.len(),
        ts_wire_match(s, pos, t),
    ensures
        forall|j: int| 0 <= j < 8 ==> (is_digit(s[pos + #[trigger] ts_digit_pos(j)])),
        is_digit(s[pos + 11]) && is_digit(s[pos + 12]),
        s[pos + 4] == 45 && s[pos + 7] == 45 && s[pos + 10] == 84,
        s[pos + 13] == 58 && s[pos + 14] == 48 && s[pos + 15] == 48,
        s[pos + 16] == 58 && s[pos + 17] == 48 && s[pos + 18] == 48,
        t.year == 1000 * (s[pos + 0] - 48) + 100 * (s[pos + 1] - 48) + 10 * (s[pos + 2] - 48) + (
        s[pos + 3] - 48),
        t.month == 10 * (s[pos + 5] - 48) + (s[pos + 6] - 48),
        t.day == 10 * (s[pos + 8] - 48) + (s[pos + 9] - 48),
        t.hour == 10 * (s[pos + 11] - 48) + (s[pos + 12] - 48),
{
    let tb = ts_bytes(t);
    assert forall|i: int| 0 <= i < 19 implies s[pos + i] == tb[i] by {
        assert(s.subrange(pos, pos + 19)[i] == s[pos + i]);
    }
    lemma_year_recombine(t.year as int);
    vstd::arithmetic::div_mod::lemma_fundamental_div_mod(t.month as int, 10);
    vstd::arithmetic::div_mod::lemma_fundamental_div_mod(t.day as int, 10);
    vstd::arithmetic::div_mod::lemma_fundamental_div_mod(t.hour as int, 10);
    assert forall|j: int| 0 <= j < 8 implies is_digit(s[pos + #[trigger] ts_digit_pos(j)]) by {
        assert(s[pos + ts_digit_pos(j)] == tb[ts_digit_pos(j)]);
    }
}

/// The value token `v` sits at `pos`, ended by a comma.
spec fn token_at(s: Seq<u8>, pos: int, v: Seq<u8>) -> bool {
    &&& token_ok(v)
    &&& 0 <= pos
    &&& pos + v.len() < s.len()
    &&& s.subrange(pos, pos + v.len() as int) == v
    &&& s[pos + v.len()] == 44
}

/// The value token at `pos`: bytes up to the next `,`, all from the value
/// alphabet; never `None` where a token ended by a comma sits at `pos`.
fn parse_token(s: &Vec<u8>, pos: usize) -> (r: Option<(Vec<u8>, usize)>)
    ensures
        r matches Some(p) ==> pos <= p.1 <= s@.len() && token_ok(p.0@),
        forall|v: Seq<u8>|
            token_at(s@, pos as int, v) ==> (r matches Some(p) && p.0@ == v && p.1 == pos
                + v.len()),
{
    let ghost sv = s@;
    let n_len: usize = s.len();
    if pos >= n_len {
        return None;
    }
    let mut i: usize = pos;
    let mut tok: Vec<u8> = Vec::new();
    proof {
        assert(sv.subrange(pos as int, pos as int) =~= Seq::<u8>::empty());
    }
    while i < n_len && s[i] != 44
        invariant
            pos <= i <= n_len,
            sv == s@,
            n_len == sv.len(),
            tok@ == sv.subrange(pos as int, i as int),
            forall|k: int|
                pos <= k < i ==> token_byte_ok(#[trigger] sv[k]) && sv[k] != 44,
        decreases sv.len() - i,
    {
        let b = s[i];
        if !(b >= 48 && b <= 57 || b == 45 || b == 43 || b == 46 || b == 101 || b == 69) {
            proof {
                assert forall|v: Seq<u8>| !token_at(sv, pos as int, v) by {
                    if token_at(sv, pos as int, v) {
                        if i < pos + v.len() {
                            assert(sv[i as int] == v[i - pos]);
                            assert(token_byte_ok(sv[i as int]));
                        } else {
                            assert(i == pos + v.len());
                            assert(sv[i as int] == 44);
                        }
                        assert(false);
                    }
                }
            }
            return None;
        }
        proof {
            assert(sv.subrange(pos as int, i + 1).drop_last() =~= sv.subrange(
                pos as int,
                i as int,
            ));
            assert(sv.subrange(pos as int, i + 1) =~= tok@.push(sv[i as int]));
        }
        tok.push(b);
        i = i + 1;
    }
    if i >= n_len || tok.len() == 0 {
        proof {
            assert forall|v: Seq<u8>| !token_at(sv, pos as int, v) by {
                if token_at(sv, pos as int, v) {
                    if i >= n_len {
                        assert(sv[pos + v.len() as int] == 44);
                        assert(pos + v.len() < i);
                        assert(false);
                    } else {
                        assert(sv[i as int] == 44);
                        assert(i == pos);
                        assert(sv[pos as int] == v[0]);
                        assert(token_byte_ok(v[0]));
                        assert(false);
                    }
                }
            }
        }
        return None;
    }
    proof {
        assert forall|v: Seq<u8>|
            token_at(sv, pos as int, v) implies (tok@ == v && i == pos + v.len()) by {
            if i < pos + v.len() {
                assert(sv[i as int] == v[i - pos]);
                assert(token_byte_ok(sv[i as int]));
                assert(sv[i as int] == 44);
                assert(false);
            }
            if i > pos + v.len() {
                assert(sv[pos + v.len() as int] == 44);
                assert(false);
            }
            assert(tok@ == sv.subrange(pos as int, pos + v.len() as int));
        }
    }
    Some((tok, i))
}

fn bytes_eq(a: &Vec<u8>, b: &Vec<u8>) -> (r: bool)
    ensures
        r <==> a@ == b@,
{
    if a.len() != b.len() {
        proof {
            assert(a@.len() != b@.len());
        }
        return false;
    }
    let mut i: usize = 0;
    while i < a.len()
        invariant
            a@.len() == b@.len(),
            i <= a@.len(),
            forall|j: int| 0 <= j < i ==> a@[j] == b@[j],
        decreases a@.len() - i,
    {
        if a[i] != b[i] {
            return false;
        }
        i = i + 1;
    }
    proof {
        assert(a@ =~= b@);
    }
    true
}

/// A byte line that is the encoding of a well-formed record.
pub open spec fn encoding_of(s: Seq<u8>, rec: Record) -> bool {
    rec.wf() && s == record_bytes(rec)
}

/// Where each field of an encoded record sits on the wire.
#[verifier::rlimit(100)]
proof fn lemma_wire_layout(s: Seq<u8>, rec: Record)
    requires
        rec.wf(),
        s == record_bytes(rec),
    ensures
        ({
            let l1 = dec_bytes(rec.node as nat).len() as int;
            let l2 = dec_bytes(rec.metric as nat).len() as int;
            let l3 = dec_bytes(rec.query as nat).len() as int;
            let l4 = dec_bytes(rec.disruption as nat).len() as int;
            let vl = rec.value@.len() as int;
            &&& l1 >= 1 && l2 >= 1 && l3 >= 1 && l4 >= 1 && vl >= 1
            &&& s.len() == 8 + l1 + 10 + l2 + 9 + l3 + 9 + 19 + 10 + vl + 14 + l4 + 1
            &&& dec_at(s, 8, rec.node as nat)
            &&& dec_at(s, 8 + l1 + 10, rec.metric as nat)
            &&& dec_at(s, 8 + l1 + 10 + l2 + 9, rec.query as nat)
            &&& ts_wire_match(s, 8 + l1 + 10 + l2 + 9 + l3 + 9, rec.hour)
            &&& token_at(s, 8 + l1 + 10 + l2 + 9 + l3 + 9 + 19 + 10, rec.value@)
            &&& dec_at(s, 8 + l1 + 10 + l2 + 9 + l3 + 9 + 19 + 10 + vl + 14, rec.disruption as nat)
        }),
{
    lemma_record_bytes_split(rec);
    lemma_dec_bytes_digits(rec.node as nat);
    lemma_dec_bytes_digits(rec.metric as nat);
    lemma_dec_bytes_digits(rec.query as nat);
    lemma_dec_bytes_digits(rec.disruption as nat);
    let d1 = dec_bytes(rec.node as nat);
    let d2 = dec_bytes(rec.metric as nat);
    let d3 = dec_bytes(rec.query as nat);
    let d4 = dec_bytes(rec.disruption as nat);
    let l1 = d1.len() as int;
    let l2 = d2.len() as int;
    let l3 = d3.len() as int;
    let l4 = d4.len() as int;
    let vl = rec.value@.len() as int;
    let wm = wire_from_metric(rec);
    let wq = wire_from_query(rec);
    let wh = wire_from_hour(rec);
    let am = 8 + l1;
    let aq = am + 10 + l2;
    let ah = aq + 9 + l3;
    assert(s.subrange(am, s.len() as int) =~= wm);
    assert(s.subrange(aq, s.len() as int) =~= wq);
    assert(s.subrange(ah, s.len() as int) =~= wh);
    // node
    assert(s.subrange(8, 8 + l1) =~= d1);
    assert(s[8 + l1] == wm[0]);
    // metric
    assert(s.subrange(am + 10, am + 10 + l2) =~= d2);
    assert(s[am + 10 + l2] == wq[0]);
    // query
    assert(s.subrange(aq + 9, aq + 9 + l3) =~= d3);
    assert(s[aq + 9 + l3] == wh[0]);
    // hour
    assert(s.subrange(ah + 9, ah + 9 + 19) =~= ts_bytes(rec.hour));
    // value
    assert(s.subrange(ah + 38, ah + 38 + vl) =~= rec.value@);
    assert(s[ah + 38 + vl] == lit_disruption()[0]);
    // disruption
    assert(s.subrange(ah + 38 + vl + 14, ah + 38 + vl + 14 + l4) =~= d4);
    assert(s[ah + 38 + vl + 14 + l4] == 125);
}

/// Parse one wire line back into a record. A line parses successfully only
/// if it is, byte for byte, the encoding of the returned well-formed record:
/// the parsed fields are re-encoded and compared against the input. And a
/// line that is the encoding of a well-formed record always parses.
#[verifier::rlimit(100)]
pub fn parse_record(s: &Vec<u8>) -> (r: Option<Record>)
    ensures
        r matches Some(p) ==> p.wf() && s@ == record_bytes(p),
        forall|rec: Record| encoding_of(s@, rec) ==> (r is Some),
{
    let ghost sv = s@;
    if s.len() < 40 {
        proof {
            assert forall|rec: Record| !encoding_of(sv, rec) by {
                if encoding_of(sv, rec) {
                    lemma_wire_layout(sv, rec);
                }
            }
        }
        return None;
    }
    let node_r = parse_dec(s, 8);
    let (node, p1) = match node_r {
        Some(p) => p,
        None => {
            proof {
                assert forall|rec: Record| !encoding_of(sv, rec) by {
                    if encoding_of(sv, rec) {
                        lemma_wire_layout(sv, rec);
                    }
                }
            }
            return None;
        },
    };
    if s.len() - p1 < 10 {
        proof {
            assert forall|rec: Record| !encoding_of(sv, rec) by {
                if encoding_of(sv, rec) {
                    lemma_wire_layout(sv, rec);
                }
            }
        }
        return None;
    }
    let metric_r = parse_dec(s, p1 + 10);
    let (metric, p2) = match metric_r {
        Some(p) => p,
        None => {
            proof {
                assert forall|rec: Record| !encoding_of(sv, rec) by {
                    if encoding_of(sv, rec) {
                        lemma_wire_layout(sv, rec);
                    }
                }
            }
            return None;
        },
    };
    if s.len() - p2 < 9 {
        proof {
            assert forall|rec: Record| !encoding_of(sv, rec) by {
                if encoding_of(sv, rec) {
                    lemma_wire_layout(sv, rec);
                }
            }
        }
        return None;
    }
    let query_r = parse_dec(s, p2 + 9);
    let (query, p3) = match query_r {
        Some(p) => p,
        None => {
            proof {
                assert forall|rec: Record| !encoding_of(sv, rec) by {
                    if encoding_of(sv, rec) {
                        lemma_wire_layout(sv, rec);
                    }
                }
            }
            return None;
        },
    };
    // the timestamp and the quoted value opener sit after `,"hour":"`
    if s.len() - p3 < 38 {
        proof {
            assert forall|rec: Record| !encoding_of(sv, rec) by {
                if encoding_of(sv, rec) {
                    lemma_wire_layout(sv, rec);
                }
            }
        }
        return None;
    }
    let ts_r = parse_timestamp(s, p3 + 9);
    let hour = match ts_r {
        Some(t) => t,
        None => {
            proof {
                assert forall|rec: Record| !encoding_of(sv, rec) by {
                    if encoding_of(sv, rec) {
                        lemma_wire_layout(sv, rec);
                    }
                }
            }
            return None;
        },
    };
    let tok_r = parse_token(s, p3 + 9 + 19 + 10);
    let (value, p4) = match tok_r {
        Some(p) => p,
        None => {
            proof {
                assert forall|rec: Record| !encoding_of(sv, rec) by {
                    if encoding_of(sv, rec) {
                        lemma_wire_layout(sv, rec);
                    }
                }
            }
            return None;
        },
    };
    if s.len() - p4 < 14 {
        proof {
            assert forall|rec: Record| !encoding_of(sv, rec) by {
                if encoding_of(sv, rec) {
                    lemma_wire_layout(sv, rec);
                }
            }
        }
        return None;
    }
    let dis_r = parse_dec(s, p4 + 14);
    let (disruption, _p5) = match dis_r {
        Some(p) => p,
        None => {
            proof {
                assert forall|rec: Record| !encoding_of(sv, rec) by {
                    if encoding_of(sv, rec) {
                        lemma_wire_layout(sv, rec);
                    }
                }
            }
            return None;
        },
    };
    if disruption > 3 {
        proof {
            assert forall|rec: Record| !encoding_of(sv, rec) by {
                if encoding_of(sv, rec) {
                    lemma_wire_layout(sv, rec);
                }
            }
        }
        return None;
    }
    let candidate = Record { node, metric, query, hour, value, disruption };
    let enc = encode_record(&candidate);
    if bytes_eq(s, &enc) {
        Some(candidate)
    } else {
        proof {
            assert forall|rec: Record| !encoding_of(sv, rec) by {
                if encoding_of(sv, rec) {
                    lemma_wire_layout(sv, rec);
                    assert(record_bytes(candidate) =~= record_bytes(rec));
                }
            }
        }
        None
    }
}

/// Every byte of a decimal rendering is a digit, and there is at least one.
pub proof fn lemma_dec_bytes_digits(n: nat)
    ensures
        dec_bytes(n).len() >= 1,
        forall|i: int| 0 <= i < dec_bytes(n).len() ==> is_digit(#[trigger] dec_bytes(n)[i]),
    decreases n,
{
    if n >= 10 {
        assert(n / 10 < n) by (nonlinear_arith)
            requires
                n >= 10,
        {
        }
        lemma_dec_bytes_digits(n / 10);
        assert forall|i: int| 0 <= i < dec_bytes(n).len() implies is_digit(
            #[trigger] dec_bytes(n)[i],
        ) by {
            if i < dec_bytes(n / 10).len() {
                assert(dec_bytes(n)[i] == dec_bytes(n / 10)[i]);
            } else {
                assert(dec_bytes(n)[i] == digit_of((n % 10) as int));
            }
        }
    }
}

/// Two numbers with the same decimal rendering are the same number.
pub proof fn lemma_dec_bytes_injective(m: nat, n: nat)
    requires
        dec_bytes(m) == dec_bytes(n),
    ensures
        m == n,
    decreases m,
{
    if m < 10 && n < 10 {
        assert(dec_bytes(m)[0] == digit_of(m as int));
        assert(dec_bytes(n)[0] == digit_of(n as int));
    } else if m < 10 {
        lemma_dec_bytes_digits(n / 10);
        assert(dec_bytes(n).len() >= 2);
        assert(false);
    } else if n < 10 {
        lemma_dec_bytes_digits(m / 10);
        assert(dec_bytes(m).len() >= 2);
        assert(false);
    } else {
        assert(m / 10 < m) by (nonlinear_arith)
            requires
                m >= 10,
        {
        }
        assert(dec_bytes(m).drop_last() =~= dec_bytes(m / 10));
        assert(dec_bytes(n).drop_last() =~= dec_bytes(n / 10));
        lemma_dec_bytes_injective(m / 10, n / 10);
        assert(dec_bytes(m).last() == digit_of((m % 10) as int));
        assert(dec_bytes(n).last() == digit_of((n % 10) as int));
        vstd::arithmetic::div_mod::lemma_fundamental_div_mod(m as int, 10);
        vstd::arithmetic::div_mod::lemma_fundamental_div_mod(n as int, 10);
    }
}

/// The number read from a digit string, most significant first.
spec fn dec_val(s: Seq<u8>) -> int
    decreases s.len(),
{
    if s.len() == 0 {
        0
    } else {
        dec_val(s.drop_last()) * 10 + (s.last() - 48)
    }
}

proof fn lemma_dec_val_nonneg(s: Seq<u8>)
    requires
        forall|i: int| 0 <= i < s.len() ==> is_digit(#[trigger] s[i]),
    ensures
        dec_val(s) >= 0,
    decreases s.len(),
{
    if s.len() > 0 {
        assert(forall|i: int|
            0 <= i < s.drop_last().len() ==> is_digit(#[trigger] s.drop_last()[i]));
        lemma_dec_val_nonneg(s.drop_last());
        assert(is_digit(s.last()));
    }
}

proof fn lemma_dec_val_of_dec_bytes(n: nat)
    ensures
        dec_val(dec_bytes(n)) == n,
    decreases n,
{
    if n < 10 {
        assert(dec_bytes(n) == seq![digit_of(n as int)]);
        assert(dec_bytes(n).drop_last() =~= Seq::<u8>::empty());
        assert(dec_val(Seq::<u8>::empty()) == 0);
        assert(dec_bytes(n).last() == digit_of(n as int));
        assert(digit_of(n as int) == 48 + n);
    } else {
        assert(n / 10 < n) by (nonlinear_arith)
            requires
                n >= 10,
        {
        }
        lemma_dec_val_of_dec_bytes(n / 10);
        assert(dec_bytes(n).drop_last() =~= dec_bytes(n / 10));
        assert(dec_bytes(n).last() == digit_of((n % 10) as int));
        assert(digit_of((n % 10) as int) == 48 + n % 10);
        vstd::arithmetic::div_mod::lemma_fundamental_div_mod(n as int, 10);
    }
}

/// Reading fewer digits never reads a larger number.
proof fn lemma_dec_val_prefix(s: Seq<u8>, k: int)
    requires
        forall|i: int| 0 <= i < s.len() ==> is_digit(#[trigger] s[i]),
        0 <= k <= s.len(),
    ensures
        0 <= dec_val(s.subrange(0, k)) <= dec_val(s),
    decreases s.len() - k,
{
    assert(forall|i: int|
        0 <= i < s.subrange(0, k).len() ==> is_digit(#[trigger] s.subrange(0, k)[i]));
    lemma_dec_val_nonneg(s.subrange(0, k));
    if k < s.len() {
        lemma_dec_val_prefix(s, k + 1);
        assert(s.subrange(0, k + 1).drop_last() =~= s.subrange(0, k));
        assert(is_digit(s[k]));
    } else {
        assert(s.subrange(0, k) =~= s);
    }
}

/// The decimal rendering of `n` sits at `pos`, ended by the sequence end or
/// a non-digit.
spec fn dec_at(s: Seq<u8>, pos: int, n: nat) -> bool {
    &&& n <= usize::MAX
    &&& 0 <= pos
    &&& pos + dec_bytes(n).len() <= s.len()
    &&& s.subrange(pos, pos + dec_bytes(n).len() as int) == dec_bytes(n)
    &&& (pos + dec_bytes(n).len() == s.len() || !is_digit(s[pos + dec_bytes(n).len()]))
}

/// Chained division by tens: the second and third digits of a number come
/// from nested quotients.
proof fn lemma_div_chain(y: int)
    requires
        0 <= y,
    ensures
        (y / 10) / 10 == y / 100,
        (y / 100) / 10 == y / 1000,
{
    vstd::arithmetic::div_mod::lemma_fundamental_div_mod(y, 100);
    vstd::arithmetic::div_mod::lemma_fundamental_div_mod(y % 100, 10);
    vstd::arithmetic::div_mod::lemma_fundamental_div_mod_converse(
        y,
        10,
        10 * (y / 100) + (y % 100) / 10,
        (y % 100) % 10,
    );
    vstd::arithmetic::div_mod::lemma_fundamental_div_mod_converse(
        y / 10,
        10,
        y / 100,
        (y % 100) / 10,
    );
    vstd::arithmetic::div_mod::lemma_fundamental_div_mod(y, 1000);
    vstd::arithmetic::div_mod::lemma_fundamental_div_mod(y % 1000, 100);
    vstd::arithmetic::div_mod::lemma_fundamental_div_mod_converse(
        y,
        100,
        10 * (y / 1000) + (y % 1000) / 100,
        (y % 1000) % 100,
    );
    vstd::arithmetic::div_mod::lemma_fundamental_div_mod_converse(
        y / 100,
        10,
        y / 1000,
        (y % 1000) / 100,
    );
}

/// Two well-formed timestamps with the same nineteen bytes are equal.
pub proof fn lemma_ts_bytes_injective(t1: Timestamp, t2: Timestamp)
    requires
        t1.wf(),
        t2.wf(),
        ts_bytes(t1) == ts_bytes(t2),
    ensures
        t1 == t2,
{
    let y1 = t1.year as int;
    let y2 = t2.year as int;
    lemma_div_chain(y1);
    lemma_div_chain(y2);
    vstd::arithmetic::div_mod::lemma_fundamental_div_mod(y1, 10);
    vstd::arithmetic::div_mod::lemma_fundamental_div_mod(y2, 10);
    vstd::arithmetic::div_mod::lemma_fundamental_div_mod(y1 / 10, 10);
    vstd::arithmetic::div_mod::lemma_fundamental_div_mod(y2 / 10, 10);
    vstd::arithmetic::div_mod::lemma_fundamental_div_mod(y1 / 100, 10);
    vstd::arithmetic::div_mod::lemma_fundamental_div_mod(y2 / 100, 10);
    vstd::arithmetic::div_mod::lemma_fundamental_div_mod(y1, 1000);
    vstd::arithmetic::div_mod::lemma_fundamental_div_mod(y2, 1000);
    assert(ts_bytes(t1)[0] == ts_bytes(t2)[0]);
    assert(ts_bytes(t1)[1] == ts_bytes(t2)[1]);
    assert(ts_bytes(t1)[2] == ts_bytes(t2)[2]);
    assert(ts_bytes(t1)[3] == ts_bytes(t2)[3]);
    assert(y1 / 1000 == y2 / 1000);
    assert(y1 / 100 == y2 / 100);
    assert(y1 / 10 == y2 / 10);
    assert(y1 == y2);
    let m1 = t1.month as int;
    let m2 = t2.month as int;
    vstd::arithmetic::div_mod::lemma_fundamental_div_mod(m1, 10);
    vstd::arithmetic::div_mod::lemma_fundamental_div_mod(m2, 10);
    assert(ts_bytes(t1)[5] == ts_bytes(t2)[5]);
    assert(ts_bytes(t1)[6] == ts_bytes(t2)[6]);
    assert(m1 == m2);
    let d1 = t1.day as int;
    let d2 = t2.day as int;
    vstd::arithmetic::div_mod::lemma_fundamental_div_mod(d1, 10);
    vstd::arithmetic::div_mod::lemma_fundamental_div_mod(d2, 10);
    assert(ts_bytes(t1)[8] == ts_bytes(t2)[8]);
    assert(ts_bytes(t1)[9] == ts_bytes(t2)[9]);
    assert(d1 == d2);
    let h1 = t1.hour as int;
    let h2 = t2.hour as int;
    vstd::arithmetic::div_mod::lemma_fundamental_div_mod(h1, 10);
    vstd::arithmetic::div_mod::lemma_fundamental_div_mod(h2, 10);
    assert(ts_bytes(t1)[11] == ts_bytes(t2)[11]);
    assert(ts_bytes(t1)[12] == ts_bytes(t2)[12]);
    assert(h1 == h2);
}

/// After a shared prefix, a run of bytes satisfying `pred` ends at the first
/// byte that does not: two decompositions of the same sequence with the same
/// prefix have the same run and the same tail.
proof fn lemma_run_split(
    p: Seq<u8>,
    u: Seq<u8>,
    r: Seq<u8>,
    v: Seq<u8>,
    w: Seq<u8>,
    pred: spec_fn(u8) -> bool,
)
    requires
        p + u + r == p + v + w,
        u.len() >= 1,
        v.len() >= 1,
        r.len() >= 1,
        w.len() >= 1,
        forall|i: int| 0 <= i < u.len() ==> pred(#[trigger] u[i]),
        forall|i: int| 0 <= i < v.len() ==> pred(#[trigger] v[i]),
        !pred(r[0]),
        !pred(w[0]),
    ensures
        u == v,
        r == w,
{
    let s1 = p + u + r;
    let s2 = p + v + w;
    if u.len() < v.len() {
        assert(s1[p.len() + u.len() as int] == r[0]);
        assert(s2[p.len() + u.len() as int] == v[u.len() as int]);
        assert(pred(v[u.len() as int]));
        assert(false);
    }
    if v.len() < u.len() {
        assert(s2[p.len() + v.len() as int] == w[0]);
        assert(s1[p.len() + v.len() as int] == u[v.len() as int]);
        assert(pred(u[v.len() as int]));
        assert(false);
    }
    assert forall|k: int| 0 <= k < u.len() implies u[k] == v[k] by {
        assert(s1[p.len() + k] == u[k]);
        assert(s2[p.len() + k] == v[k]);
    }
    assert(u =~= v);
    assert(s1.len() == p.len() + u.len() + r.len());
    assert(s2.len() == p.len() + v.len() + w.len());
    assert(r.len() == w.len());
    assert forall|k: int| 0 <= k < r.len() implies r[k] == w[k] by {
        assert(s1[p.len() + u.len() + k] == r[k]);
        assert(s2[p.len() + v.len() + k] == w[k]);
    }
    assert(r =~= w);
}

/// The wire line from the metric field on.
pub open spec fn wire_from_metric(r: Record) -> Seq<u8> {
    lit_metric() + dec_bytes(r.metric as nat) + wire_from_query(r)
}

/// The wire line from the query field on.
pub open spec fn wire_from_query(r: Record) -> Seq<u8> {
    lit_query() + dec_bytes(r.query as nat) + wire_from_hour(r)
}

/// The wire line from the hour field on.
pub open spec fn wire_from_hour(r: Record) -> Seq<u8> {
    lit_hour() + ts_bytes(r.hour) + lit_value() + r.value@ + lit_disruption() + dec_bytes(
        r.disruption as nat,
    ) + seq![125u8]
}

/// The wire line splits into the node field and the rest.
proof fn lemma_record_bytes_split(r: Record)
    ensures
        record_bytes(r) == lit_node() + dec_bytes(r.node as nat) + wire_from_metric(r),
{
    assert(record_bytes(r) =~= lit_node() + dec_bytes(r.node as nat) + wire_from_metric(r));
}

/// One decimal field with the same prefix on both sides: the numbers and
/// the tails agree.
proof fn lemma_dec_field_step(p: Seq<u8>, m: nat, ra: Seq<u8>, n: nat, rb: Seq<u8>)
    requires
        p + dec_bytes(m) + ra == p + dec_bytes(n) + rb,
        ra.len() >= 1,
        rb.len() >= 1,
        !is_digit(ra[0]),
        !is_digit(rb[0]),
    ensures
        m == n,
        ra == rb,
{
    lemma_dec_bytes_digits(m);
    lemma_dec_bytes_digits(n);
    lemma_run_split(p, dec_bytes(m), ra, dec_bytes(n), rb, |x: u8| is_digit(x));
    lemma_dec_bytes_injective(m, n);
}

/// The tail of the wire line, from the hour on, identifies the remaining
/// fields.
proof fn lemma_record_tail_injective(a: Record, b: Record)
    requires
        a.wf(),
        b.wf(),
        wire_from_hour(a) == wire_from_hour(b),
    ensures
        a.hour == b.hour,
        a.value@ == b.value@,
        a.disruption == b.disruption,
{
    let r3a = wire_from_hour(a);
    let r3b = wire_from_hour(b);
    // the timestamp is fixed-width, so it aligns byte for byte
    assert forall|k: int| 0 <= k < 19 implies ts_bytes(a.hour)[k] == ts_bytes(b.hour)[k] by {
        assert(r3a[9 + k] == ts_bytes(a.hour)[k]);
        assert(r3b[9 + k] == ts_bytes(b.hour)[k]);
    }
    assert(ts_bytes(a.hour) =~= ts_bytes(b.hour));
    lemma_ts_bytes_injective(a.hour, b.hour);
    let p4 = lit_hour() + ts_bytes(a.hour) + lit_value();
    let r4a = lit_disruption() + dec_bytes(a.disruption as nat) + seq![125u8];
    let r4b = lit_disruption() + dec_bytes(b.disruption as nat) + seq![125u8];
    assert(r3a =~= p4 + a.value@ + r4a);
    assert(r3b =~= p4 + b.value@ + r4b);
    lemma_dec_bytes_digits(a.disruption as nat);
    lemma_dec_bytes_digits(b.disruption as nat);
    lemma_run_split(p4, a.value@, r4a, b.value@, r4b, |x: u8| token_byte_ok(x));
    lemma_dec_field_step(
        lit_disruption(),
        a.disruption as nat,
        seq![125u8],
        b.disruption as nat,
        seq![125u8],
    );
}

/// The wire shape identifies the record: two well-formed records with the
/// same encoding agree on every field. Together with `parse_record`, which
/// only returns a record whose encoding is the input, a serialized record
/// that parses back yields the identical field values.
pub proof fn lemma_record_bytes_injective(a: Record, b: Record)
    requires
        a.wf(),
        b.wf(),
        record_bytes(a) == record_bytes(b),
    ensures
        a.node == b.node,
        a.metric == b.metric,
        a.query == b.query,
        a.hour == b.hour,
        a.value@ == b.value@,
        a.disruption == b.disruption,
{
    lemma_record_bytes_split(a);
    lemma_record_bytes_split(b);
    lemma_dec_field_step(
        lit_node(),
        a.node as nat,
        wire_from_metric(a),
        b.node as nat,
        wire_from_metric(b),
    );
    lemma_dec_field_step(
        lit_metric(),
        a.metric as nat,
        wire_from_query(a),
        b.metric as nat,
        wire_from_query(b),
    );
    lemma_dec_field_step(
        lit_query(),
        a.query as nat,
        wire_from_hour(a),
        b.query as nat,
        wire_from_hour(b),
    );
    lemma_record_tail_injective(a, b);
}
} // verus!
