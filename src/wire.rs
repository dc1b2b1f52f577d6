//! The canonical JSON text of a claim, as bytes:
//! `{"timestamp":<integer>,"evidence":{"BtcBlockHash":"<hash>"}}`, compact, with
//! the hash escaped as a JSON string.
use vstd::prelude::*;
use vstd::utf8::*;

use crate::bridge::string_from_utf8;

verus! {

/// Decimal digits of `n`, most significant first, without leading zeros.
pub open spec fn digits_of(n: nat) -> Seq<u8>
    decreases n,
{
    if n < 10 {
        seq![(48 + n) as u8]
    } else {
        digits_of(n / 10).push((48 + n % 10) as u8)
    }
}

/// Decimal text of an integer, with a leading `-` when it is negative.
pub open spec fn int_text(i: int) -> Seq<u8> {
    if i < 0 {
        seq![45u8] + digits_of((-i) as nat)
    } else {
        digits_of(i as nat)
    }
}

pub open spec fn is_digit(b: u8) -> bool {
    48 <= b <= 57
}

/// The number that a run of decimal digits stands for.
pub open spec fn digits_value(s: Seq<u8>) -> int
    decreases s.len(),
{
    if s.len() == 0 {
        0
    } else {
        digits_value(s.drop_last()) * 10 + (s.last() - 48)
    }
}

/// A lowercase hexadecimal digit for `n < 16`.
pub open spec fn hex_digit(n: u8) -> u8 {
    if n < 10 {
        (48 + n) as u8
    } else {
        (87 + n) as u8
    }
}

/// How one byte of a string's UTF-8 text is written inside a JSON string.
pub open spec fn escaped_byte(c: u8) -> Seq<u8> {
    if c == 34 {
        seq![92u8, 34u8]
    } else if c == 92 {
        seq![92u8, 92u8]
    } else if c == 8 {
        seq![92u8, 98u8]
    } else if c == 12 {
        seq![92u8, 102u8]
    } else if c == 10 {
        seq![92u8, 110u8]
    } else if c == 13 {
        seq![92u8, 114u8]
    } else if c == 9 {
        seq![92u8, 116u8]
    } else if c < 32 {
        seq![92u8, 117u8, 48u8, 48u8, hex_digit(c / 16), hex_digit(c % 16)]
    } else {
        seq![c]
    }
}

/// The body of a JSON string holding the bytes `b`.
pub open spec fn escaped(b: Seq<u8>) -> Seq<u8>
    decreases b.len(),
{
    if b.len() == 0 {
        Seq::empty()
    } else {
        escaped(b.drop_last()) + escaped_byte(b.last())
    }
}

/// `{"timestamp":`
pub open spec fn json_head() -> Seq<u8> {
    seq![123u8, 34, 116, 105, 109, 101, 115, 116, 97, 109, 112, 34, 58]
}

/// `,"evidence":{"BtcBlockHash":"`
pub open spec fn json_middle() -> Seq<u8> {
    seq![
        44u8, 34, 101, 118, 105, 100, 101, 110, 99, 101, 34, 58, 123, 34, 66, 116, 99, 66, 108,
        111, 99, 107, 72, 97, 115, 104, 34, 58, 34,
    ]
}

/// `"}}`
pub open spec fn json_tail() -> Seq<u8> {
    seq![34u8, 125, 125]
}

/// The canonical JSON text of a claim with the given timestamp and block hash.
pub open spec fn claim_json(timestamp: int, hash: Seq<char>) -> Seq<u8> {
    json_head() + int_text(timestamp) + json_middle() + escaped(encode_utf8(hash)) + json_tail()
}

fn push_all(out: &mut Vec<u8>, lit: &Vec<u8>)
    ensures
        final(out)@ == old(out)@ + lit@,
{
    let mut i: usize = 0;
    while i < lit.len()
        invariant
            i <= lit@.len(),
            out@ == old(out)@ + lit@.subrange(0, i as int),
        decreases lit@.len() - i,
    {
        out.push(lit[i]);
        i = i + 1;
        assert(out@ =~= old(out)@ + lit@.subrange(0, i as int));
    }
    assert(lit@.subrange(0, lit@.len() as int) =~= lit@);
}

fn head_bytes() -> (r: Vec<u8>)
    ensures
        r@ == json_head(),
{
    let r = vec![123u8, 34, 116, 105, 109, 101, 115, 116, 97, 109, 112, 34, 58];
    assert(r@ =~= json_head());
    r
}

fn middle_bytes() -> (r: Vec<u8>)
    ensures
        r@ == json_middle(),
{
    let r = vec![
        44u8, 34, 101, 118, 105, 100, 101, 110, 99, 101, 34, 58, 123, 34, 66, 116, 99, 66, 108,
        111, 99, 107, 72, 97, 115, 104, 34, 58, 34,
    ];
    assert(r@ =~= json_middle());
    r
}

fn tail_bytes() -> (r: Vec<u8>)
    ensures
        r@ == json_tail(),
{
    let r = vec![34u8, 125, 125];
    assert(r@ =~= json_tail());
    r
}

fn push_digits(out: &mut Vec<u8>, n: u64)
    ensures
        final(out)@ == old(out)@ + digits_of(n as nat),
    decreases n,
{
    if n >= 10 {
        push_digits(out, n / 10);
    }
    out.push((48 + n % 10) as u8);
    assert(out@ =~= old(out)@ + digits_of(n as nat));
}

fn push_int(out: &mut Vec<u8>, i: i64)
    ensures
        final(out)@ == old(out)@ + int_text(i as int),
{
    if i < 0 {
        out.push(45u8);
        let m: u64 = (0i128 - i as i128) as u64;
        push_digits(out, m);
        assert(out@ =~= old(out)@ + int_text(i as int));
    } else {
        push_digits(out, i as u64);
    }
}

fn hex_char(n: u8) -> (r: u8)
    requires
        n < 16,
    ensures
        r == hex_digit(n),
{
    if n < 10 {
        48 + n
    } else {
        87 + n
    }
}

fn push_escaped_byte(out: &mut Vec<u8>, c: u8)
    ensures
        final(out)@ == old(out)@ + escaped_byte(c),
{
    if c == 34 || c == 92 {
        out.push(92u8);
        out.push(c);
    } else if c == 8 {
        out.push(92u8);
        out.push(98u8);
    } else if c == 12 {
        out.push(92u8);
        out.push(102u8);
    } else if c == 10 {
        out.push(92u8);
        out.push(110u8);
    } else if c == 13 {
        out.push(92u8);
        out.push(114u8);
    } else if c == 9 {
        out.push(92u8);
        out.push(116u8);
    } else if c < 32 {
        out.push(92u8);
        out.push(117u8);
        out.push(48u8);
        out.push(48u8);
        out.push(hex_char(c / 16));
        out.push(hex_char(c % 16));
    } else {
        out.push(c);
    }
    assert(out@ =~= old(out)@ + escaped_byte(c));
}

fn push_escaped(out: &mut Vec<u8>, b: &[u8])
    ensures
        final(out)@ == old(out)@ + escaped(b@),
{
    let mut i: usize = 0;
    while i < b.len()
        invariant
            i <= b@.len(),
            out@ == old(out)@ + escaped(b@.subrange(0, i as int)),
        decreases b@.len() - i,
    {
        push_escaped_byte(out, b[i]);
        assert(b@.subrange(0, i + 1).drop_last() =~= b@.subrange(0, i as int));
        i = i + 1;
        assert(out@ =~= old(out)@ + escaped(b@.subrange(0, i as int)));
    }
    assert(b@.subrange(0, b@.len() as int) =~= b@);
}

/// Writes the canonical JSON text of a claim.
pub fn encode_claim_json(timestamp: i64, hash: &str) -> (r: Vec<u8>)
    ensures
        r@ == claim_json(timestamp as int, hash@),
{
    let mut out = head_bytes();
    push_int(&mut out, timestamp);
    let middle = middle_bytes();
    push_all(&mut out, &middle);
    push_escaped(&mut out, hash.as_bytes());
    let tail = tail_bytes();
    push_all(&mut out, &tail);
    assert(out@ =~= claim_json(timestamp as int, hash@));
    out
}

proof fn lemma_digits_of(n: nat)
    ensures
        digits_of(n).len() >= 1,
        forall|i: int| 0 <= i < digits_of(n).len() ==> is_digit(#[trigger] digits_of(n)[i]),
        digits_value(digits_of(n)) == n,
    decreases n,
{
    if n >= 10 {
        lemma_digits_of(n / 10);
        assert(digits_of(n).drop_last() =~= digits_of(n / 10));
        assert(digits_of(n).last() == (48 + n % 10) as u8);
        assert(digits_of(n).last() - 48 == n % 10);
        assert(n == (n / 10) * 10 + n % 10);
        assert(digits_value(digits_of(n)) == digits_value(digits_of(n / 10)) * 10 + n % 10);
    } else {
        assert(digits_of(n).drop_last() =~= Seq::<u8>::empty());
        assert(digits_value(Seq::<u8>::empty()) == 0);
        assert(digits_of(n).last() - 48 == n);
    }
}

proof fn lemma_value_prefix(s: Seq<u8>, j: int)
    requires
        0 <= j <= s.len(),
        forall|i: int| 0 <= i < s.len() ==> is_digit(#[trigger] s[i]),
    ensures
        0 <= digits_value(s.subrange(0, j)) <= digits_value(s),
    decreases s.len(),
{
    if j == s.len() {
        assert(s.subrange(0, j) =~= s);
        lemma_value_nonneg(s);
    } else {
        lemma_value_prefix(s.drop_last(), j);
        assert(s.drop_last().subrange(0, j) =~= s.subrange(0, j));
    }
}

proof fn lemma_value_nonneg(s: Seq<u8>)
    requires
        forall|i: int| 0 <= i < s.len() ==> is_digit(#[trigger] s[i]),
    ensures
        digits_value(s) >= 0,
    decreases s.len(),
{
    if s.len() > 0 {
        lemma_value_nonneg(s.drop_last());
    }
}

proof fn lemma_digits_prefix(n1: nat, r1: Seq<u8>, n2: nat, r2: Seq<u8>)
    requires
        digits_of(n1) + r1 == digits_of(n2) + r2,
        r1.len() > 0 && !is_digit(r1[0]),
        r2.len() > 0 && !is_digit(r2[0]),
    ensures
        n1 == n2,
        r1 == r2,
{
    lemma_digits_of(n1);
    lemma_digits_of(n2);
    let d1 = digits_of(n1);
    let d2 = digits_of(n2);
    let all = d1 + r1;
    if d1.len() < d2.len() {
        assert(all[d1.len() as int] == r1[0]);
        assert(all[d1.len() as int] == d2[d1.len() as int]);
    } else if d2.len() < d1.len() {
        assert(all[d2.len() as int] == r2[0]);
        assert(all[d2.len() as int] == d1[d2.len() as int]);
    }
    assert(d1 =~= all.subrange(0, d1.len() as int));
    assert(d2 =~= (d2 + r2).subrange(0, d2.len() as int));
    assert(r1 =~= all.subrange(d1.len() as int, all.len() as int));
    assert(r2 =~= (d2 + r2).subrange(d2.len() as int, all.len() as int));
}

proof fn lemma_int_text_prefix(t1: int, r1: Seq<u8>, t2: int, r2: Seq<u8>)
    requires
        int_text(t1) + r1 == int_text(t2) + r2,
        r1.len() > 0 && !is_digit(r1[0]),
        r2.len() > 0 && !is_digit(r2[0]),
    ensures
        t1 == t2,
        r1 == r2,
{
    let m1: nat = if t1 < 0 { (-t1) as nat } else { t1 as nat };
    let m2: nat = if t2 < 0 { (-t2) as nat } else { t2 as nat };
    lemma_digits_of(m1);
    lemma_digits_of(m2);
    let all = int_text(t1) + r1;
    assert(all[0] == int_text(t1)[0]);
    assert(all[0] == int_text(t2)[0]);
    if t1 < 0 {
        assert(int_text(t1)[0] == 45);
    } else {
        assert(int_text(t1)[0] == digits_of(m1)[0]);
    }
    if t2 < 0 {
        assert(int_text(t2)[0] == 45);
    } else {
        assert(int_text(t2)[0] == digits_of(m2)[0]);
    }
    if t1 < 0 {
        assert(digits_of(m1) + r1 =~= all.drop_first());
        assert(digits_of(m2) + r2 =~= (int_text(t2) + r2).drop_first());
        lemma_digits_prefix(m1, r1, m2, r2);
    } else {
        lemma_digits_prefix(m1, r1, m2, r2);
    }
}

/// No byte's escape is a proper start of another's: the first escape can be read off.
proof fn lemma_escaped_byte_code(a: u8, x: Seq<u8>, b: u8, y: Seq<u8>)
    requires
        escaped_byte(a) + x == escaped_byte(b) + y,
    ensures
        a == b,
        x == y,
{
    let s = escaped_byte(a) + x;
    let ea = escaped_byte(a);
    let eb = escaped_byte(b);
    assert(s[0] == ea[0]);
    assert(s[0] == eb[0]);
    if ea.len() >= 2 && eb.len() >= 2 {
        assert(s[1] == ea[1]);
        assert(s[1] == eb[1]);
    }
    if ea.len() == 6 && eb.len() == 6 {
        assert(s[4] == ea[4] && s[4] == eb[4]);
        assert(s[5] == ea[5] && s[5] == eb[5]);
        assert(a / 16 == b / 16);
        assert(a % 16 == b % 16);
    }
    assert(ea.len() == eb.len());
    assert(ea =~= s.subrange(0, ea.len() as int));
    assert(eb =~= (eb + y).subrange(0, eb.len() as int));
    assert(x =~= s.subrange(ea.len() as int, s.len() as int));
    assert(y =~= (eb + y).subrange(eb.len() as int, s.len() as int));
}

proof fn lemma_escaped_front(b: Seq<u8>)
    requires
        b.len() > 0,
    ensures
        escaped(b) == escaped_byte(b[0]) + escaped(b.drop_first()),
    decreases b.len(),
{
    if b.len() == 1 {
        assert(b.drop_last() =~= Seq::<u8>::empty());
        assert(b.drop_first() =~= Seq::<u8>::empty());
        assert(escaped(b) =~= escaped_byte(b[0]) + escaped(b.drop_first()));
    } else {
        lemma_escaped_front(b.drop_last());
        assert(b.drop_last().drop_first() =~= b.drop_first().drop_last());
        assert(escaped(b) =~= escaped_byte(b[0]) + escaped(b.drop_first()));
    }
}

proof fn lemma_escaped_empty(b: Seq<u8>)
    ensures
        escaped(b).len() == 0 <==> b.len() == 0,
    decreases b.len(),
{
    if b.len() > 0 {
        lemma_escaped_empty(b.drop_last());
    }
}

proof fn lemma_escaped_injective(u1: Seq<u8>, u2: Seq<u8>)
    requires
        escaped(u1) == escaped(u2),
    ensures
        u1 == u2,
    decreases u1.len(),
{
    lemma_escaped_empty(u1);
    lemma_escaped_empty(u2);
    if u1.len() > 0 && u2.len() > 0 {
        lemma_escaped_front(u1);
        lemma_escaped_front(u2);
        lemma_escaped_byte_code(u1[0], escaped(u1.drop_first()), u2[0], escaped(u2.drop_first()));
        lemma_escaped_injective(u1.drop_first(), u2.drop_first());
        assert(u1 =~= seq![u1[0]] + u1.drop_first());
        assert(u2 =~= seq![u2[0]] + u2.drop_first());
    } else {
        assert(u1 =~= u2);
    }
}

/// Two claims with the same canonical JSON text have the same timestamp and hash.
pub proof fn lemma_claim_json_injective(t1: int, h1: Seq<char>, t2: int, h2: Seq<char>)
    requires
        claim_json(t1, h1) == claim_json(t2, h2),
    ensures
        t1 == t2,
        h1 == h2,
{
    let e1 = escaped(encode_utf8(h1));
    let e2 = escaped(encode_utf8(h2));
    let r1 = json_middle() + e1 + json_tail();
    let r2 = json_middle() + e2 + json_tail();
    let s = claim_json(t1, h1);
    assert(s =~= json_head() + (int_text(t1) + r1));
    assert(claim_json(t2, h2) =~= json_head() + (int_text(t2) + r2));
    assert(int_text(t1) + r1 =~= s.subrange(13, s.len() as int));
    assert(int_text(t2) + r2 =~= claim_json(t2, h2).subrange(13, s.len() as int));
    assert(r1[0] == 44);
    assert(r2[0] == 44);
    lemma_int_text_prefix(t1, r1, t2, r2);
    assert(e1 =~= r1.subrange(29, r1.len() - 3));
    assert(e2 =~= r2.subrange(29, r2.len() - 3));
    lemma_escaped_injective(encode_utf8(h1), encode_utf8(h2));
    encode_utf8_decode_utf8(h1);
    encode_utf8_decode_utf8(h2);
}

fn read_lit(bytes: &Vec<u8>, at: usize, lit: &Vec<u8>) -> (r: bool)
    requires
        at <= bytes@.len(),
    ensures
        r == (at + lit@.len() <= bytes@.len() && bytes@.subrange(
            at as int,
            at + lit@.len(),
        ) == lit@),
{
    if lit.len() > bytes.len() - at {
        return false;
    }
    let mut i: usize = 0;
    while i < lit.len()
        invariant
            i <= lit@.len(),
            at + lit@.len() <= bytes@.len(),
            bytes@.len() <= usize::MAX,
            forall|k: int| 0 <= k < i ==> bytes@[at + k] == lit@[k],
        decreases lit@.len() - i,
    {
        if bytes[at + i] != lit[i] {
            assert(bytes@.subrange(at as int, at + lit@.len())[i as int] != lit@[i as int]);
            return false;
        }
        i = i + 1;
    }
    assert(bytes@.subrange(at as int, at + lit@.len()) =~= lit@);
    true
}

fn same_bytes(a: &Vec<u8>, b: &Vec<u8>) -> (r: bool)
    ensures
        r == (a@ == b@),
{
    if a.len() != b.len() {
        return false;
    }
    let mut i: usize = 0;
    while i < a.len()
        invariant
            i <= a@.len(),
            a@.len() == b@.len(),
            forall|k: int| 0 <= k < i ==> a@[k] == b@[k],
        decreases a@.len() - i,
    {
        if a[i] != b[i] {
            return false;
        }
        i = i + 1;
    }
    assert(a@ =~= b@);
    true
}

/// Reads an integer written as `int_text` at `start`; `expected`, when given, is an
/// integer whose text stands there, followed by a byte that is no digit.
fn parse_int(
    bytes: &Vec<u8>,
    start: usize,
    Ghost(expected): Ghost<Option<int>>,
) -> (r: Option<(i64, usize)>)
    requires
        start <= bytes@.len(),
        expected is Some ==> {
            let e = expected->0;
            let t = int_text(e);
            &&& i64::MIN <= e <= i64::MAX
            &&& start + t.len() < bytes@.len()
            &&& bytes@.subrange(start as int, start + t.len()) == t
            &&& !is_digit(bytes@[start + t.len()])
        },
    ensures
        match r {
            Some((_, end)) => start <= end <= bytes@.len(),
            None => true,
        },
        expected is Some ==> r == Some(
            (expected->0 as i64, (start + int_text(expected->0).len()) as usize),
        ),
{
    let ghost mag: nat = if expected is Some && expected->0 < 0 {
        (-expected->0) as nat
    } else if expected is Some {
        expected->0 as nat
    } else {
        0
    };
    let ghost ds: Seq<u8> = digits_of(mag);
    proof {
        lemma_digits_of(mag);
    }
    let mut i: usize = start;
    let neg = i < bytes.len() && bytes[i] == 45;
    if neg {
        i = i + 1;
    }
    proof {
        if expected is Some {
            let t = int_text(expected->0);
            if expected->0 < 0 {
                assert(bytes@[start as int] == t[0]);
                assert(neg);
                assert(bytes@.subrange(i as int, i + ds.len()) =~= t.drop_first());
            } else {
                assert(bytes@[start as int] == t[0]);
                assert(is_digit(ds[0]));
                assert(!neg);
                assert(bytes@.subrange(i as int, i + ds.len()) =~= t);
            }
        }
    }
    let digits_start = i;
    let mut v: u128 = 0;
    while i < bytes.len() && 48 <= bytes[i] && bytes[i] <= 57
        invariant
            digits_start <= i <= bytes@.len(),
            start <= digits_start,
            v == digits_value(bytes@.subrange(digits_start as int, i as int)),
            v <= 9223372036854775808,
            forall|k: int| digits_start <= k < i ==> is_digit(#[trigger] bytes@[k]),
            forall|k: int| 0 <= k < ds.len() ==> is_digit(#[trigger] ds[k]),
            ds.len() >= 1,
            digits_value(ds) == mag,
            expected is Some ==> mag <= 9223372036854775808,
            expected is Some ==> {
                &&& i <= digits_start + ds.len()
                &&& digits_start + ds.len() < bytes@.len()
                &&& bytes@.subrange(digits_start as int, digits_start + ds.len()) == ds
                &&& !is_digit(bytes@[digits_start + ds.len()])
                &&& neg <==> expected->0 < 0
            },
        decreases bytes@.len() - i,
    {
        let ghost prev = bytes@.subrange(digits_start as int, i as int);
        v = v * 10 + (bytes[i] - 48) as u128;
        i = i + 1;
        assert(bytes@.subrange(digits_start as int, i as int).drop_last() =~= prev);
        proof {
            if expected is Some {
                if i > digits_start + ds.len() {
                    assert(bytes@[digits_start + ds.len()] == bytes@[i - 1]);
                }
                assert(bytes@.subrange(digits_start as int, i as int) =~= ds.subrange(
                    0,
                    i - digits_start,
                ));
                lemma_value_prefix(ds, i - digits_start);
            }
        }
        if v > 9223372036854775808 {
            return None;
        }
    }
    if i == digits_start {
        proof {
            if expected is Some {
                assert(bytes@[digits_start as int] == ds[0]);
            }
        }
        return None;
    }
    proof {
        if expected is Some {
            if i < digits_start + ds.len() {
                assert(bytes@[i as int] == ds[i - digits_start]);
            }
            assert(bytes@.subrange(digits_start as int, i as int) =~= ds);
        }
    }
    let ts: i64;
    if neg {
        ts = (0i128 - v as i128) as i64;
    } else {
        if v > 9223372036854775807 {
            return None;
        }
        ts = v as i64;
    }
    Some((ts, i))
}

fn hex_value(b: u8) -> (r: Option<u8>)
    ensures
        forall|n: u8| n < 16 && b == #[trigger] hex_digit(n) ==> r == Some(n),
        r is Some ==> r->0 < 16,
{
    if 48 <= b && b <= 57 {
        Some(b - 48)
    } else if 97 <= b && b <= 102 {
        Some(b - 87)
    } else {
        None
    }
}

/// Reads the body of a JSON string written as `escaped` between `from` and `to`;
/// `expected`, when given, is bytes whose escape stands there.
fn unescape(
    bytes: &Vec<u8>,
    from: usize,
    to: usize,
    Ghost(expected): Ghost<Option<Seq<u8>>>,
) -> (r: Option<Vec<u8>>)
    requires
        from <= to <= bytes@.len(),
        expected is Some ==> bytes@.subrange(from as int, to as int) == escaped(expected->0),
    ensures
        expected is Some ==> r is Some && r->0@ == expected->0,
{
    let mut out: Vec<u8> = Vec::new();
    let mut i: usize = from;
    let ghost mut rest: Seq<u8> = if expected is Some {
        expected->0
    } else {
        Seq::empty()
    };
    while i < to
        invariant
            from <= i <= to <= bytes@.len(),
            expected is Some ==> bytes@.subrange(i as int, to as int) == escaped(rest)
                && expected->0 == out@ + rest,
        decreases to - i,
    {
        let ghost seg = bytes@.subrange(i as int, to as int);
        proof {
            if expected is Some {
                lemma_escaped_empty(rest);
                lemma_escaped_front(rest);
                let e0 = escaped_byte(rest[0]);
                assert(seg =~= e0 + escaped(rest.drop_first()));
                assert(seg.len() >= e0.len());
                assert forall|j: int| 0 <= j < e0.len() implies seg[j] == e0[j] by {
                    assert((e0 + escaped(rest.drop_first()))[j] == e0[j]);
                }
                assert(seg[0] == e0[0]);
            }
        }
        let c = bytes[i];
        let step: usize;
        let value: u8;
        if c == 92 {
            if to - i < 2 {
                return None;
            }
            let d = bytes[i + 1];
            proof {
                if expected is Some {
                    assert(seg[1] == escaped_byte(rest[0])[1]);
                }
            }
            if d == 34 || d == 92 {
                value = d;
                step = 2;
            } else if d == 98 {
                value = 8;
                step = 2;
            } else if d == 102 {
                value = 12;
                step = 2;
            } else if d == 110 {
                value = 10;
                step = 2;
            } else if d == 114 {
                value = 13;
                step = 2;
            } else if d == 116 {
                value = 9;
                step = 2;
            } else if d == 117 {
                proof {
                    if expected is Some {
                        let e0 = escaped_byte(rest[0]);
                        assert(e0.len() == 6);
                        assert(seg[2] == e0[2]);
                        assert(seg[3] == e0[3]);
                        assert(seg[4] == e0[4]);
                        assert(seg[5] == e0[5]);
                        assert(rest[0] / 16 <= 1);
                        assert(seg[4] == hex_digit(rest[0] / 16));
                        assert(seg[5] == hex_digit(rest[0] % 16));
                    }
                }
                if to - i < 6 || bytes[i + 2] != 48 || bytes[i + 3] != 48 {
                    return None;
                }
                let hi = hex_value(bytes[i + 4]);
                let lo = hex_value(bytes[i + 5]);
                match (hi, lo) {
                    (Some(h), Some(l)) => {
                        if h > 1 {
                            return None;
                        }
                        value = h * 16 + l;
                        step = 6;
                    },
                    _ => {
                        return None;
                    },
                }
            } else {
                return None;
            }
        } else {
            value = c;
            step = 1;
        }
        out.push(value);
        proof {
            if expected is Some {
                let e0 = escaped_byte(rest[0]);
                assert(value == rest[0]);
                assert(e0.len() == step);
                assert(bytes@.subrange(i + step, to as int) =~= seg.subrange(step as int, seg.len() as int));
                assert(seg.subrange(step as int, seg.len() as int) =~= escaped(rest.drop_first()));
                assert(expected->0 =~= out@ + rest.drop_first());
                rest = rest.drop_first();
            }
        }
        i = i + step;
    }
    proof {
        if expected is Some {
            lemma_escaped_empty(rest);
            assert(out@ =~= expected->0);
        }
    }
    Some(out)
}

proof fn lemma_claim_json_parts(t: int, h: Seq<char>)
    ensures
        ({
            let b = claim_json(t, h);
            let n = int_text(t).len() as int;
            &&& b.len() == 13 + n + 29 + escaped(encode_utf8(h)).len() + 3
            &&& b.subrange(0, 13) == json_head()
            &&& b.subrange(13, 13 + n) == int_text(t)
            &&& b[13 + n] == 44
            &&& b.subrange(13 + n, 13 + n + 29) == json_middle()
            &&& b.subrange(13 + n + 29, b.len() - 3) == escaped(encode_utf8(h))
        }),
{
    let b = claim_json(t, h);
    let it = int_text(t);
    let eh = escaped(encode_utf8(h));
    let n = it.len() as int;
    assert(b =~= json_head() + it + json_middle() + eh + json_tail());
    assert(b.subrange(0, 13) =~= json_head());
    assert(b.subrange(13, 13 + n) =~= it);
    assert(b[13 + n] == json_middle()[0]);
    assert(b.subrange(13 + n, 13 + n + 29) =~= json_middle());
    assert(b.subrange(13 + n + 29, b.len() - 3) =~= eh);
}

/// Reads the canonical JSON text of a claim back into its timestamp and hash.
#[verifier::rlimit(40)]
pub fn decode_claim_json(bytes: &Vec<u8>) -> (r: Option<(i64, String)>)
    ensures
        match r {
            Some((t, h)) => bytes@ == claim_json(t as int, h@),
            None => forall|t: i64, h: Seq<char>| bytes@ != #[trigger] claim_json(t as int, h),
        },
{
    let ghost canonical = exists|t: i64, h: Seq<char>| bytes@ == #[trigger] claim_json(t as int, h);
    let ghost (wt, wh) = choose|t: i64, h: Seq<char>| bytes@ == #[trigger] claim_json(t as int, h);
    let ghost it = int_text(wt as int);
    let ghost eh = escaped(encode_utf8(wh));
    proof {
        if canonical {
            assert(bytes@ =~= json_head() + it + json_middle() + eh + json_tail());
            assert(bytes@.subrange(0, 13) =~= json_head());
            let n = it.len() as int;
            assert(bytes@.subrange(13, 13 + n) =~= it);
            assert(bytes@[13 + n] == 44);
            assert(bytes@.subrange(13 + n, 13 + n + 29) =~= json_middle());
            assert(bytes@.subrange(13 + n + 29, bytes@.len() - 3) =~= eh);
        }
    }
    let head = head_bytes();
    if bytes.len() < 13 || !read_lit(bytes, 0, &head) {
        return None;
    }
    let parsed = parse_int(
        bytes,
        13,
        Ghost(
            if canonical {
                Some(wt as int)
            } else {
                None
            },
        ),
    );
    let (ts, after) = match parsed {
        Some(p) => p,
        None => {
            return None;
        },
    };
    let middle = middle_bytes();
    if !read_lit(bytes, after, &middle) {
        return None;
    }
    let start = after + 29;
    if bytes.len() - start < 3 {
        return None;
    }
    let end = bytes.len() - 3;
    let raw = match unescape(
        bytes,
        start,
        end,
        Ghost(
            if canonical {
                Some(encode_utf8(wh))
            } else {
                None
            },
        ),
    ) {
        Some(raw) => raw,
        None => {
            return None;
        },
    };
    let hash = match string_from_utf8(raw) {
        Ok(s) => s,
        Err(_) => {
            return None;
        },
    };
    proof {
        if canonical {
            encode_utf8_decode_utf8(wh);
            encode_utf8_decode_utf8(hash@);
        }
    }
    let again = encode_claim_json(ts, hash.as_str());
    if !same_bytes(&again, bytes) {
        return None;
    }
    Some((ts, hash))
}

} // verus!
