//! The byte formats of the durable files: one JSON record per line in a
//! topic's backing store, and a single decimal integer in a commit file.
//! Encoders and decoders are exact inverses on the canonical forms, which is
//! what the startup index rebuild relies on.

use vstd::prelude::*;

verus! {

/// The decimal digit bytes of `n`, most significant first.
pub open spec fn spec_digits(n: nat) -> Seq<u8>
    decreases n,
{
    if n < 10 {
        seq![(0x30 + n) as u8]
    } else {
        spec_digits(n / 10).push((0x30 + n % 10) as u8)
    }
}

pub open spec fn is_digit(b: u8) -> bool {
    0x30 <= b <= 0x39
}

pub open spec fn all_digits(s: Seq<u8>) -> bool {
    forall|i: int| 0 <= i < s.len() ==> is_digit(#[trigger] s[i])
}

/// The number denoted by a digit string (most significant digit first).
pub open spec fn spec_digits_value(s: Seq<u8>) -> int
    decreases s.len(),
{
    if s.len() == 0 {
        0
    } else {
        spec_digits_value(s.drop_last()) * 10 + (s.last() - 0x30)
    }
}

pub proof fn lemma_digits_props(n: nat)
    ensures
        spec_digits(n).len() >= 1,
        all_digits(spec_digits(n)),
    decreases n,
{
    if n >= 10 {
        lemma_digits_props(n / 10);
    }
}

/// Formatting then evaluating a number gives the number back.
pub proof fn lemma_digits_value(n: nat)
    ensures
        spec_digits_value(spec_digits(n)) == n,
    decreases n,
{
    if n < 10 {
        assert(spec_digits(n).len() == 1);
        assert(spec_digits(n).drop_last() =~= Seq::<u8>::empty());
        assert(spec_digits_value(Seq::<u8>::empty()) == 0);
        assert(spec_digits(n).last() == (0x30 + n) as u8);
        assert((0x30 + n) as u8 == 0x30 + n);
        assert(spec_digits_value(spec_digits(n)) == spec_digits_value(Seq::<u8>::empty()) * 10 + (
        (0x30 + n) as u8 - 0x30));
    } else {
        lemma_digits_value(n / 10);
        assert(spec_digits(n).drop_last() =~= spec_digits(n / 10));
        assert(spec_digits(n).last() == (0x30 + n % 10) as u8);
        assert((0x30 + n % 10) as u8 == 0x30 + n % 10);
        assert(n / 10 * 10 + n % 10 == n) by (nonlinear_arith);
    }
}

pub proof fn lemma_digits_value_nonneg(s: Seq<u8>)
    requires
        all_digits(s),
    ensures
        spec_digits_value(s) >= 0,
    decreases s.len(),
{
    if s.len() > 0 {
        assert(all_digits(s.drop_last()));
        lemma_digits_value_nonneg(s.drop_last());
    }
}

/// A prefix of a digit string never denotes more than the whole string.
pub proof fn lemma_digits_value_take(s: Seq<u8>, i: int)
    requires
        all_digits(s),
        0 <= i <= s.len(),
    ensures
        spec_digits_value(s.take(i)) <= spec_digits_value(s),
    decreases s.len() - i,
{
    if i == s.len() {
        assert(s.take(i) =~= s);
    } else {
        assert(s.take(i + 1).drop_last() =~= s.take(i));
        assert(all_digits(s.take(i)));
        lemma_digits_value_nonneg(s.take(i));
        assert(spec_digits_value(s.take(i + 1)) == spec_digits_value(s.take(i)) * 10 + (s[i]
            - 0x30));
        lemma_digits_value_take(s, i + 1);
    }
}

/// The decimal digits of `n`, as bytes.
pub fn fmt_usize(n: usize) -> (r: Vec<u8>)
    ensures
        r@ == spec_digits(n as nat),
    decreases n,
{
    if n < 10 {
        let mut v: Vec<u8> = Vec::new();
        v.push(0x30 + n as u8);
        proof {
            assert(v@ =~= spec_digits(n as nat));
        }
        v
    } else {
        let mut v = fmt_usize(n / 10);
        v.push(0x30 + (n % 10) as u8);
        v
    }
}

/// Reads `line[start..end]` as a decimal number. Whenever that segment is
/// exactly the canonical digit string of some `n`, the result is `Some(n)`.
pub fn parse_segment(line: &Vec<u8>, start: usize, end: usize) -> (r: Option<usize>)
    requires
        start <= end <= line@.len(),
    ensures
        forall|n: usize| line@.subrange(start as int, end as int) == spec_digits(n as nat) ==> r
            == Some(n),
        r matches Some(k) ==> all_digits(line@.subrange(start as int, end as int))
            && spec_digits_value(line@.subrange(start as int, end as int)) == k,
{
    let ghost seg = line@.subrange(start as int, end as int);
    if start == end {
        proof {
            assert forall|n: usize| seg != spec_digits(n as nat) by {
                lemma_digits_props(n as nat);
            }
        }
        return None;
    }
    let mut acc: usize = 0;
    let mut i: usize = start;
    while i < end
        invariant
            start <= i <= end <= line@.len(),
            seg == line@.subrange(start as int, end as int),
            forall|j: int| start <= j < i ==> is_digit(#[trigger] line@[j]),
            all_digits(seg.take(i - start)),
            acc == spec_digits_value(seg.take(i - start)),
        decreases end - i,
    {
        let b = line[i];
        if b < 0x30 || b > 0x39 {
            proof {
                assert forall|n: usize| seg != spec_digits(n as nat) by {
                    if seg == spec_digits(n as nat) {
                        lemma_digits_props(n as nat);
                        assert(is_digit(seg[i - start]));
                    }
                }
            }
            return None;
        }
        let d = (b - 0x30) as usize;
        proof {
            assert(seg.take(i + 1 - start).drop_last() =~= seg.take(i - start));
            assert(seg.take(i + 1 - start).last() == line@[i as int]);
        }
        if acc > (usize::MAX - d) / 10 {
            proof {
                assert forall|n: usize| seg != spec_digits(n as nat) by {
                    if seg == spec_digits(n as nat) {
                        lemma_digits_props(n as nat);
                        lemma_digits_value(n as nat);
                        lemma_digits_value_take(seg, i + 1 - start);
                        assert(spec_digits_value(seg.take(i + 1 - start)) == acc * 10 + d);
                        assert(acc * 10 + d <= n);
                        assert(acc <= (usize::MAX - d) / 10) by (nonlinear_arith)
                            requires
                                acc * 10 + d <= usize::MAX,
                                0 <= d < 10,
                                acc >= 0,
                        ;
                    }
                }
            }
            return None;
        }
        proof {
            assert(acc * 10 + d <= usize::MAX) by (nonlinear_arith)
                requires
                    acc <= (usize::MAX - d) / 10,
                    0 <= d < 10,
                    acc >= 0,
            ;
        }
        acc = acc * 10 + d;
        i = i + 1;
    }
    proof {
        assert(seg.take(i - start) =~= seg);
        assert forall|n: usize| seg == spec_digits(n as nat) implies acc == n by {
            lemma_digits_value(n as nat);
        }
    }
    Some(acc)
}

pub open spec fn pow10(k: nat) -> nat
    decreases k,
{
    if k == 0 {
        1
    } else {
        10 * pow10((k - 1) as nat)
    }
}

pub proof fn lemma_digits_len_bound(n: nat, k: nat)
    requires
        1 <= k,
        n < pow10(k),
    ensures
        spec_digits(n).len() <= k,
    decreases n,
{
    if n >= 10 {
        assert(pow10(k) == 10 * pow10((k - 1) as nat));
        if k == 1 {
            assert(pow10(0) == 1);
            assert(false);
        }
        assert(n / 10 * 10 + n % 10 == n) by (nonlinear_arith);
        assert(10 * (n / 10) < 10 * pow10((k - 1) as nat));
        lemma_digits_len_bound(n / 10, (k - 1) as nat);
    }
}

/// Any value a machine word can hold has at most twenty decimal digits.
pub proof fn lemma_usize_digits_len(n: nat)
    requires
        n <= u64::MAX,
    ensures
        spec_digits(n).len() <= 20,
{
    assert(pow10(20) == 100000000000000000000) by {
        reveal_with_fuel(pow10, 21);
    }
    lemma_digits_len_bound(n, 20);
}

/// The bytes of `{"offset":`, the opening of a record line.
pub open spec fn rec_prefix() -> Seq<u8> {
    seq![123u8, 34u8, 111u8, 102u8, 102u8, 115u8, 101u8, 116u8, 34u8, 58u8]
}

/// The bytes of `,"message":`, between the two numbers of a record line.
pub open spec fn rec_mid() -> Seq<u8> {
    seq![44u8, 34u8, 109u8, 101u8, 115u8, 115u8, 97u8, 103u8, 101u8, 34u8, 58u8]
}

/// The canonical record body `{"offset":o,"message":m}`, without the newline.
pub open spec fn spec_record(o: nat, m: nat) -> Seq<u8> {
    rec_prefix() + spec_digits(o) + rec_mid() + spec_digits(m) + seq![125u8]
}

/// A full record line: the body followed by one newline byte.
pub open spec fn spec_record_line(o: nat, m: nat) -> Seq<u8> {
    spec_record(o, m) + seq![10u8]
}

/// The canonical contents of a commit file: the offset in decimal, then a
/// newline.
pub open spec fn spec_commit_line(n: nat) -> Seq<u8> {
    spec_digits(n) + seq![10u8]
}

/// How a record body is laid out: where its digit runs and its separators
/// sit, and that no byte of it is a newline.
pub proof fn lemma_record_structure(o: nat, m: nat)
    ensures
        spec_record(o, m).len() == 22 + spec_digits(o).len() + spec_digits(m).len(),
        spec_record(o, m).len() >= 24,
        forall|j: int|
            10 <= j < 10 + spec_digits(o).len() ==> #[trigger] spec_record(o, m)[j] != 44,
        spec_record(o, m)[10 + spec_digits(o).len() as int] == 44,
        spec_record(o, m).subrange(10, 10 + spec_digits(o).len() as int) == spec_digits(o),
        spec_record(o, m).subrange(
            21 + spec_digits(o).len() as int,
            spec_record(o, m).len() - 1,
        ) == spec_digits(m),
        forall|j: int| 0 <= j < spec_record(o, m).len() ==> #[trigger] spec_record(o, m)[j] != 10,
{
    lemma_digits_props(o);
    lemma_digits_props(m);
    let line = spec_record(o, m);
    let po = spec_digits(o);
    let pm = spec_digits(m);
    assert forall|j: int| 10 <= j < 10 + po.len() implies #[trigger] line[j] != 44 by {
        assert(line[j] == po[j - 10]);
        assert(is_digit(po[j - 10]));
    }
    assert(line[10 + po.len() as int] == rec_mid()[0]);
    assert(line.subrange(10, 10 + po.len() as int) =~= po);
    assert(line.subrange(21 + po.len() as int, line.len() - 1) =~= pm);
    assert forall|j: int| 0 <= j < line.len() implies #[trigger] line[j] != 10 by {
        if j < 10 {
            assert(line[j] == rec_prefix()[j]);
        } else if j < 10 + po.len() {
            assert(line[j] == po[j - 10]);
            assert(is_digit(po[j - 10]));
        } else if j < 21 + po.len() {
            assert(line[j] == rec_mid()[j - 10 - po.len()]);
        } else if j < line.len() - 1 {
            assert(line[j] == pm[j - 21 - po.len()]);
            assert(is_digit(pm[j - 21 - po.len()]));
        } else {
            assert(line[j] == 125);
        }
    }
}

/// A record line for offsets and values a machine word can hold takes at
/// most 63 bytes.
pub proof fn lemma_record_line_len(o: nat, m: nat)
    requires
        o <= u64::MAX,
        m <= u64::MAX,
    ensures
        spec_record_line(o, m).len() <= 63,
{
    lemma_record_structure(o, m);
    lemma_usize_digits_len(o);
    lemma_usize_digits_len(m);
}

/// A record line is its body plus a final newline, and the newline marks
/// exactly the end of the line.
pub proof fn lemma_record_line_shape(o: nat, m: nat)
    ensures
        spec_record_line(o, m).len() == spec_record(o, m).len() + 1,
        forall|j: int|
            0 <= j < spec_record(o, m).len() ==> #[trigger] spec_record_line(o, m)[j]
                == spec_record(o, m)[j],
        forall|j: int|
            0 <= j < spec_record(o, m).len() ==> #[trigger] spec_record_line(o, m)[j] != 10,
        spec_record_line(o, m).last() == 10,
{
    lemma_record_structure(o, m);
}

/// True exactly when the two byte vectors hold the same bytes.
pub fn bytes_eq(a: &Vec<u8>, b: &Vec<u8>) -> (r: bool)
    ensures
        r == (a@ == b@),
{
    if a.len() != b.len() {
        return false;
    }
    let mut i: usize = 0;
    while i < a.len()
        invariant
            0 <= i <= a@.len(),
            a@.len() == b@.len(),
            forall|j: int| 0 <= j < i ==> a@[j] == b@[j],
        decreases a@.len() - i,
    {
        if a[i] != b[i] {
            return false;
        }
        i = i + 1;
    }
    proof {
        assert(a@ =~= b@);
    }
    true
}

/// The canonical record body for one log record, without the newline.
pub fn encode_record_body(offset: usize, message: usize) -> (r: Vec<u8>)
    ensures
        r@ == spec_record(offset as nat, message as nat),
{
    let mut v: Vec<u8> = Vec::new();
    v.push(123);
    v.push(34);
    v.push(111);
    v.push(102);
    v.push(102);
    v.push(115);
    v.push(101);
    v.push(116);
    v.push(34);
    v.push(58);
    proof {
        assert(v@ =~= rec_prefix());
    }
    let mut d = fmt_usize(offset);
    v.append(&mut d);
    v.push(44);
    v.push(34);
    v.push(109);
    v.push(101);
    v.push(115);
    v.push(115);
    v.push(97);
    v.push(103);
    v.push(101);
    v.push(34);
    v.push(58);
    proof {
        assert(v@ =~= rec_prefix() + spec_digits(offset as nat) + rec_mid());
    }
    let mut d2 = fmt_usize(message);
    v.append(&mut d2);
    v.push(125);
    proof {
        assert(v@ =~= spec_record(offset as nat, message as nat));
    }
    v
}

/// The full record line appended to a topic's backing store for one record.
pub fn encode_record(offset: usize, message: usize) -> (r: Vec<u8>)
    ensures
        r@ == spec_record_line(offset as nat, message as nat),
{
    let mut v = encode_record_body(offset, message);
    v.push(10);
    proof {
        assert(v@ =~= spec_record_line(offset as nat, message as nat));
    }
    v
}

/// Decodes one line (without its newline) of a topic's backing store.
/// Returns `Some((o, m))` exactly when the line is the canonical record body
/// for offset `o` and value `m`.
pub fn decode_record(line: &Vec<u8>) -> (r: Option<(usize, usize)>)
    ensures
        r matches Some(p) ==> line@ == spec_record(p.0 as nat, p.1 as nat),
        forall|o: usize, m: usize|
            line@ == spec_record(o as nat, m as nat) ==> r == Some((o, m)),
{
    let n = line.len();
    if n < 24 {
        proof {
            assert forall|o: usize, m: usize| line@ != spec_record(o as nat, m as nat) by {
                if line@ == spec_record(o as nat, m as nat) {
                    lemma_record_structure(o as nat, m as nat);
                }
            }
        }
        return None;
    }
    // find the first comma at or after the end of the fixed opening
    let mut c: usize = 10;
    while c < n && line[c] != 44
        invariant
            10 <= c <= n == line@.len(),
            forall|j: int| 10 <= j < c ==> line@[j] != 44,
        decreases n - c,
    {
        c = c + 1;
    }
    if c >= n {
        proof {
            assert forall|o: usize, m: usize| line@ != spec_record(o as nat, m as nat) by {
                if line@ == spec_record(o as nat, m as nat) {
                    lemma_record_structure(o as nat, m as nat);
                    assert(line@[10 + spec_digits(o as nat).len() as int] == 44);
                }
            }
        }
        return None;
    }
    let o = match parse_segment(line, 10, c) {
        Some(o) => o,
        None => {
            proof {
                assert forall|o: usize, m: usize| line@ != spec_record(o as nat, m as nat) by {
                    if line@ == spec_record(o as nat, m as nat) {
                        lemma_record_structure(o as nat, m as nat);
                        assert(c == 10 + spec_digits(o as nat).len());
                    }
                }
            }
            return None;
        },
    };
    if c >= n - 12 {
        proof {
            assert forall|o: usize, m: usize| line@ != spec_record(o as nat, m as nat) by {
                if line@ == spec_record(o as nat, m as nat) {
                    lemma_record_structure(o as nat, m as nat);
                    lemma_digits_props(m as nat);
                    assert(c == 10 + spec_digits(o as nat).len());
                }
            }
        }
        return None;
    }
    let m = match parse_segment(line, c + 11, n - 1) {
        Some(m) => m,
        None => {
            proof {
                assert forall|o: usize, m: usize| line@ != spec_record(o as nat, m as nat) by {
                    if line@ == spec_record(o as nat, m as nat) {
                        lemma_record_structure(o as nat, m as nat);
                        assert(c == 10 + spec_digits(o as nat).len());
                        assert(line@.subrange(c + 11, n - 1) == spec_digits(m as nat));
                    }
                }
            }
            return None;
        },
    };
    let enc = encode_record_body(o, m);
    if bytes_eq(&enc, line) {
        proof {
            assert forall|o2: usize, m2: usize|
                line@ == spec_record(o2 as nat, m2 as nat) implies Some((o, m)) == Some(
                (o2, m2),
            ) by {
                lemma_record_structure(o2 as nat, m2 as nat);
                assert(c == 10 + spec_digits(o2 as nat).len());
                assert(line@.subrange(10, c as int) == spec_digits(o2 as nat));
                assert(line@.subrange(c + 11, n - 1) == spec_digits(m2 as nat));
            }
        }
        Some((o, m))
    } else {
        proof {
            assert forall|o2: usize, m2: usize| line@ != spec_record(o2 as nat, m2 as nat) by {
                if line@ == spec_record(o2 as nat, m2 as nat) {
                    lemma_record_structure(o2 as nat, m2 as nat);
                    assert(c == 10 + spec_digits(o2 as nat).len());
                    assert(line@.subrange(10, c as int) == spec_digits(o2 as nat));
                    assert(line@.subrange(c + 11, n - 1) == spec_digits(m2 as nat));
                    assert(enc@ == line@);
                }
            }
        }
        None
    }
}

/// The bytes durably written for a committed offset.
pub fn encode_commit(offset: usize) -> (r: Vec<u8>)
    ensures
        r@ == spec_commit_line(offset as nat),
{
    let mut v = fmt_usize(offset);
    v.push(10);
    proof {
        assert(v@ =~= spec_commit_line(offset as nat));
    }
    v
}

/// Decodes the contents of a commit file. Returns `Some(n)` exactly when the
/// bytes are the canonical commit line for offset `n`.
pub fn decode_commit(bytes: &Vec<u8>) -> (r: Option<usize>)
    ensures
        r matches Some(k) ==> bytes@ == spec_commit_line(k as nat),
        forall|k: usize| bytes@ == spec_commit_line(k as nat) ==> r == Some(k),
{
    let n = bytes.len();
    if n < 2 || bytes[n - 1] != 10 {
        proof {
            assert forall|k: usize| bytes@ != spec_commit_line(k as nat) by {
                if bytes@ == spec_commit_line(k as nat) {
                    lemma_digits_props(k as nat);
                    assert(bytes@.last() == 10);
                }
            }
        }
        return None;
    }
    let k = match parse_segment(bytes, 0, n - 1) {
        Some(k) => k,
        None => {
            proof {
                assert forall|k: usize| bytes@ != spec_commit_line(k as nat) by {
                    if bytes@ == spec_commit_line(k as nat) {
                        lemma_digits_props(k as nat);
                        assert(bytes@.subrange(0, n - 1) =~= spec_digits(k as nat));
                    }
                }
            }
            return None;
        },
    };
    let enc = encode_commit(k);
    if bytes_eq(&enc, bytes) {
        proof {
            assert forall|k2: usize| bytes@ == spec_commit_line(k2 as nat) implies Some(k) == Some(
                k2,
            ) by {
                lemma_digits_props(k2 as nat);
                assert(bytes@.subrange(0, n - 1) =~= spec_digits(k2 as nat));
            }
        }
        Some(k)
    } else {
        proof {
            assert forall|k2: usize| bytes@ != spec_commit_line(k2 as nat) by {
                if bytes@ == spec_commit_line(k2 as nat) {
                    lemma_digits_props(k2 as nat);
                    assert(bytes@.subrange(0, n - 1) =~= spec_digits(k2 as nat));
                    assert(enc@ == bytes@);
                }
            }
        }
        None
    }
}

} // verus!
