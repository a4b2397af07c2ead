//! Line-delimited encoding of the subscriber set: one decimal chat
//! identifier per line, each line closed by a newline byte.
//!
//! The encoder writes each identifier in canonical decimal form (no leading
//! zeros, a leading `-` for negative values, never `-0`).  The parser
//! accepts exactly the files the encoder can produce, so a file that the
//! store persisted always reads back as the same subscriber sequence.

use vstd::prelude::*;
use vstd::slice::slice_index_get;
use vstd::slice::slice_subrange;

use crate::chat::Chat;
use crate::store::StorageError;

verus! {

/// Whether `b` is an ASCII decimal digit (the bytes 48 through 57).
pub open spec fn is_digit(b: u8) -> bool {
    48 <= b <= 57
}

/// The decimal digits of `n`, most significant first.
pub open spec fn u64_dec(n: nat) -> Seq<u8>
    decreases n,
{
    if n < 10 {
        seq![(48 + n) as u8]
    } else {
        u64_dec(n / 10).push((48 + n % 10) as u8)
    }
}

/// The canonical decimal form of the signed value `v`.
pub open spec fn i64_dec(v: int) -> Seq<u8> {
    if v < 0 {
        seq![45u8] + u64_dec((-v) as nat)
    } else {
        u64_dec(v as nat)
    }
}

/// The value of a digit string, most significant digit first.
pub open spec fn dec_val(s: Seq<u8>) -> nat
    decreases s.len(),
{
    if s.len() == 0 {
        0
    } else {
        dec_val(s.drop_last()) * 10 + ((s.last() - 48) as nat)
    }
}

/// Ten to the `k`.
pub open spec fn pow10(k: nat) -> nat
    decreases k,
{
    if k == 0 {
        1
    } else {
        10 * pow10((k - 1) as nat)
    }
}

/// A canonical unsigned digit string: nonempty, all digits, and no leading
/// zero except for "0" itself.
pub open spec fn digits_valid(s: Seq<u8>) -> bool {
    &&& s.len() >= 1
    &&& forall|j: int| 0 <= j < s.len() ==> is_digit(#[trigger] s[j])
    &&& (s[0] != 48 || s.len() == 1)
}

/// A canonical line: the decimal form of exactly one value in `i64` range.
pub open spec fn line_valid(s: Seq<u8>) -> bool {
    if s.len() >= 1 && s[0] == 45 {
        let d = s.skip(1);
        &&& digits_valid(d)
        &&& 1 <= dec_val(d) <= 0x8000000000000000
    } else {
        &&& digits_valid(s)
        &&& dec_val(s) <= 0x7fffffffffffffff
    }
}

/// The signed value of a canonical line.
pub open spec fn line_val(s: Seq<u8>) -> int {
    if s.len() >= 1 && s[0] == 45 {
        -(dec_val(s.skip(1)) as int)
    } else {
        dec_val(s) as int
    }
}

/// The encoded file: the canonical line of each identifier in order, each
/// closed by a newline.
pub open spec fn encode_ids(ids: Seq<i64>) -> Seq<u8>
    decreases ids.len(),
{
    if ids.len() == 0 {
        Seq::<u8>::empty()
    } else {
        encode_ids(ids.drop_last()) + i64_dec(ids.last() as int) + seq![10u8]
    }
}

/// The first position at or after `i` holding a newline, or the length of
/// `s` when no newline follows.
pub open spec fn find_nl(s: Seq<u8>, i: int) -> int
    decreases s.len() - i,
{
    if i < 0 || i >= s.len() {
        s.len() as int
    } else if s[i] == 10 {
        i
    } else {
        find_nl(s, i + 1)
    }
}

/// The subscriber identifiers read from `s` starting at `i`, or `None` when
/// the remainder of `s` is not a sequence of canonical newline-closed lines.
pub open spec fn parse_file(s: Seq<u8>, i: int) -> Option<Seq<i64>>
    decreases s.len() - i,
    via parse_file_decreases
{
    if i < 0 || i >= s.len() {
        Some(Seq::<i64>::empty())
    } else {
        let k = find_nl(s, i);
        if k >= s.len() {
            None
        } else if !line_valid(s.subrange(i, k)) {
            None
        } else {
            match parse_file(s, k + 1) {
                None => None,
                Some(rest) => Some(seq![line_val(s.subrange(i, k)) as i64] + rest),
            }
        }
    }
}

#[via_fn]
proof fn parse_file_decreases(s: Seq<u8>, i: int) {
    if 0 <= i < s.len() {
        lemma_find_nl(s, i);
    }
}

/// `find_nl` stays within `[i, s.len()]` and is sound and complete: it names
/// a newline position, and no earlier position at or after `i` holds one.
pub proof fn lemma_find_nl(s: Seq<u8>, i: int)
    requires
        0 <= i <= s.len(),
    ensures
        i <= find_nl(s, i) <= s.len(),
        find_nl(s, i) < s.len() ==> s[find_nl(s, i)] == 10,
        forall|j: int| i <= j < find_nl(s, i) ==> s[j] != 10,
    decreases s.len() - i,
{
    if i < s.len() && s[i] != 10 {
        lemma_find_nl(s, i + 1);
    }
}

/// The digits of `n` are a canonical unsigned digit string.
pub proof fn lemma_u64_dec_digits(n: nat)
    ensures
        digits_valid(u64_dec(n)),
        n > 0 ==> u64_dec(n)[0] != 48,
    decreases n,
{
    if n >= 10 {
        lemma_u64_dec_digits(n / 10);
        let p = u64_dec(n / 10);
        let s = p.push((48 + n % 10) as u8);
        assert(s[0] == p[0]);
        assert forall|j: int| 0 <= j < s.len() implies is_digit(#[trigger] s[j]) by {
            if j < p.len() {
                assert(s[j] == p[j]);
            }
        }
    }
}

/// Reading the digits of `n` back gives `n`.
pub proof fn lemma_u64_dec_val(n: nat)
    ensures
        dec_val(u64_dec(n)) == n,
    decreases n,
{
    if n < 10 {
        let s = u64_dec(n);
        assert(s =~= seq![(48 + n) as u8]);
        assert(s.drop_last() =~= Seq::<u8>::empty());
        assert(dec_val(s.drop_last()) == 0);
        assert(s.last() == (48 + n) as u8);
        assert(dec_val(s) == 0 * 10 + ((s.last() - 48) as nat));
    } else {
        lemma_u64_dec_val(n / 10);
        let p = u64_dec(n / 10);
        let s = p.push((48 + n % 10) as u8);
        assert(s.drop_last() =~= p);
        assert(s.last() == (48 + n % 10) as u8);
        assert(dec_val(s) == dec_val(s.drop_last()) * 10 + ((s.last() - 48) as nat));
        assert(dec_val(s) == (n / 10) * 10 + n % 10);
        assert((n / 10) * 10 + n % 10 == n) by (nonlinear_arith);
    }
}

/// The canonical form of a value in `i64` range is a valid line holding
/// that value, and contains no newline byte.
pub proof fn lemma_i64_dec_line(v: int)
    requires
        -0x8000000000000000 <= v <= 0x7fffffffffffffff,
    ensures
        line_valid(i64_dec(v)),
        line_val(i64_dec(v)) == v,
        i64_dec(v).len() >= 1,
        forall|j: int| 0 <= j < i64_dec(v).len() ==> #[trigger] i64_dec(v)[j] != 10,
    decreases 0int,
{
    if v < 0 {
        let m = (-v) as nat;
        lemma_u64_dec_digits(m);
        lemma_u64_dec_val(m);
        let s = seq![45u8] + u64_dec(m);
        assert(s[0] == 45);
        assert(s.skip(1) =~= u64_dec(m));
        assert forall|j: int| 0 <= j < s.len() implies #[trigger] s[j] != 10 by {
            if j >= 1 {
                assert(is_digit(u64_dec(m)[j - 1]));
            }
        }
    } else {
        let m = v as nat;
        lemma_u64_dec_digits(m);
        lemma_u64_dec_val(m);
        let s = u64_dec(m);
        assert(is_digit(s[0]));
        assert forall|j: int| 0 <= j < s.len() implies #[trigger] s[j] != 10 by {
            assert(is_digit(s[j]));
        }
    }
}

/// A digit string's value is below ten to its length.
pub proof fn lemma_dec_val_upper(s: Seq<u8>)
    requires
        forall|j: int| 0 <= j < s.len() ==> is_digit(#[trigger] s[j]),
    ensures
        dec_val(s) < pow10(s.len()),
    decreases s.len(),
{
    if s.len() > 0 {
        let p = s.drop_last();
        assert forall|j: int| 0 <= j < p.len() implies is_digit(#[trigger] p[j]) by {
            assert(p[j] == s[j]);
        }
        lemma_dec_val_upper(p);
        assert(is_digit(s.last()));
    }
}

/// A digit string without a leading zero is worth at least ten to one less
/// than its length.
pub proof fn lemma_dec_val_lower(s: Seq<u8>)
    requires
        s.len() >= 1,
        forall|j: int| 0 <= j < s.len() ==> is_digit(#[trigger] s[j]),
        s[0] != 48,
    ensures
        dec_val(s) >= pow10((s.len() - 1) as nat),
    decreases s.len(),
{
    if s.len() == 1 {
        assert(s.drop_last() =~= Seq::<u8>::empty());
        assert(is_digit(s[0]));
    } else {
        let p = s.drop_last();
        assert forall|j: int| 0 <= j < p.len() implies is_digit(#[trigger] p[j]) by {
            assert(p[j] == s[j]);
        }
        assert(p[0] == s[0]);
        lemma_dec_val_lower(p);
        assert(is_digit(s.last()));
    }
}

/// Writes the decimal digits of `n`, most significant first.
fn push_u64_dec(n: u64, out: &mut Vec<u8>)
    ensures
        final(out)@ == old(out)@ + u64_dec(n as nat),
{
    let ghost orig: nat = n as nat;
    let mut tmp: Vec<u8> = Vec::new();
    let mut m = n;
    proof {
        assert(u64_dec(m as nat) + tmp@.reverse() =~= u64_dec(orig));
    }
    while m >= 10
        invariant
            u64_dec(m as nat) + tmp@.reverse() == u64_dec(orig),
        decreases m,
    {
        let d = (48 + m % 10) as u8;
        proof {
            let ghost prev = tmp@;
            assert((prev.push(d)).reverse() =~= seq![d] + prev.reverse());
            assert(u64_dec((m / 10) as nat) + (prev.push(d)).reverse() =~= u64_dec(m as nat)
                + prev.reverse());
        }
        tmp.push(d);
        m = m / 10;
    }
    let d = (48 + m) as u8;
    proof {
        let ghost prev = tmp@;
        assert((prev.push(d)).reverse() =~= seq![d] + prev.reverse());
        assert(u64_dec(m as nat) =~= seq![d]);
        assert((prev.push(d)).reverse() =~= u64_dec(m as nat) + prev.reverse());
    }
    tmp.push(d);
    proof {
        assert(tmp@.reverse() == u64_dec(orig));
    }
    let k = tmp.len();
    for i in 0..k
        invariant
            k == tmp.len(),
            tmp@.reverse() == u64_dec(orig),
            out@ == old(out)@ + u64_dec(orig).take(i as int),
    {
        let b = tmp[k - 1 - i];
        proof {
            assert(tmp@.reverse()[i as int] == tmp@[k - 1 - i]);
            assert(old(out)@ + u64_dec(orig).take(i + 1) =~= (old(out)@ + u64_dec(orig).take(
                i as int)).push(b));
        }
        out.push(b);
    }
    proof {
        assert(u64_dec(orig).take(k as int) =~= u64_dec(orig));
    }
}

/// Writes the canonical decimal form of `v`, sign included.
fn push_i64_dec(v: i64, out: &mut Vec<u8>)
    ensures
        final(out)@ == old(out)@ + i64_dec(v as int),
{
    if v >= 0 {
        push_u64_dec(v as u64, out);
    } else {
        out.push(45);
        let m: u64 = (-(v as i128)) as u64;
        push_u64_dec(m, out);
        proof {
            assert(old(out)@ + i64_dec(v as int) =~= (old(out)@.push(45u8)) + u64_dec(m as nat));
        }
    }
}

/// Encodes the subscriber list: each identifier's canonical line, closed by
/// a newline.
pub fn encode_chats(chats: &Vec<Chat>) -> (out: Vec<u8>)
    ensures
        out@ == encode_ids(chats@.map_values(|c: Chat| c.id)),
{
    let ghost ids = chats@.map_values(|c: Chat| c.id);
    let mut out: Vec<u8> = Vec::new();
    proof {
        assert(ids.take(0) =~= Seq::<i64>::empty());
        assert(out@ =~= encode_ids(ids.take(0)));
    }
    let n = chats.len();
    for i in 0..n
        invariant
            n == chats.len(),
            ids == chats@.map_values(|c: Chat| c.id),
            out@ == encode_ids(ids.take(i as int)),
    {
        let ghost before = out@;
        push_i64_dec(chats[i].id, &mut out);
        out.push(10);
        proof {
            assert(ids.take(i + 1).drop_last() =~= ids.take(i as int));
            assert(ids.take(i + 1).last() == ids[i as int]);
            assert(out@ =~= encode_ids(ids.take(i as int)) + i64_dec(ids[i as int] as int)
                + seq![10u8]);
        }
    }
    proof {
        assert(ids.take(n as int) =~= ids);
    }
    out
}

/// Ten to the `k` is positive.
pub proof fn lemma_pow10_pos(k: nat)
    ensures
        pow10(k) >= 1,
    decreases k,
{
    if k > 0 {
        lemma_pow10_pos((k - 1) as nat);
    }
}

/// Ten to the `k` grows with `k`.
pub proof fn lemma_pow10_mono(a: nat, b: nat)
    requires
        a <= b,
    ensures
        pow10(a) <= pow10(b),
    decreases b - a,
{
    if a < b {
        lemma_pow10_mono(a, (b - 1) as nat);
        lemma_pow10_pos((b - 1) as nat);
    }
}

/// The concrete value of ten to the nineteenth: the first power of ten
/// beyond the magnitude of any `i64`.
pub proof fn lemma_pow10_19()
    ensures
        pow10(19) == 10000000000000000000,
{
    reveal_with_fuel(pow10, 21);
}

/// `find_nl` answers `j` exactly when no newline stands in `[i, j)` and `j`
/// is a newline position or the end.
pub proof fn lemma_find_nl_char(s: Seq<u8>, i: int, j: int)
    requires
        0 <= i <= j <= s.len(),
        forall|m: int| i <= m < j ==> s[m] != 10,
        j == s.len() || s[j] == 10,
    ensures
        find_nl(s, i) == j,
    decreases j - i,
{
    if i < j {
        lemma_find_nl_char(s, i + 1, j);
    }
}

/// Reads one canonical unsigned digit string.  Succeeds exactly on a
/// canonical string whose value is below ten to the nineteenth (so the
/// accepted values cover every `i64` magnitude and nothing overflows).
fn parse_digits(s: &[u8]) -> (r: Option<u64>)
    ensures
        r is Some <==> (digits_valid(s@) && dec_val(s@) < pow10(19)),
        r matches Some(v) ==> v as nat == dec_val(s@),
{
    let n = s.len();
    if n == 0 {
        return None;
    }
    if n > 1 && *slice_index_get(s, 0) == 48 {
        return None;
    }
    if n > 19 {
        proof {
            if digits_valid(s@) {
                lemma_dec_val_lower(s@);
                lemma_pow10_mono(19, (s@.len() - 1) as nat);
            }
        }
        return None;
    }
    let mut acc: u64 = 0;
    proof {
        assert(s@.take(0) =~= Seq::<u8>::empty());
        lemma_pow10_19();
    }
    for i in 0..n
        invariant
            n == s@.len(),
            1 <= n <= 19,
            acc as nat == dec_val(s@.take(i as int)),
            acc < 10000000000000000000,
            forall|j: int| 0 <= j < i ==> is_digit(#[trigger] s@[j]),
    {
        let b = *slice_index_get(s, i);
        if b < 48 || b > 57 {
            proof {
                assert(!is_digit(s@[i as int]));
            }
            return None;
        }
        proof {
            let p = s@.take(i as int);
            assert forall|j: int| 0 <= j < p.len() implies is_digit(#[trigger] p[j]) by {
                assert(p[j] == s@[j]);
            }
            lemma_dec_val_upper(p);
            lemma_pow10_mono(i as nat, 18);
            lemma_pow10_19();
            assert(pow10(18) * 10 == pow10(19));
            assert(dec_val(p) < pow10(18) ==> dec_val(p) * 10 + 9 < pow10(19));
            assert(s@.take(i + 1).drop_last() =~= p);
            assert(s@.take(i + 1).last() == s@[i as int]);
        }
        acc = acc * 10 + ((b - 48) as u64);
    }
    proof {
        assert(s@.take(n as int) =~= s@);
        lemma_dec_val_upper(s@);
        lemma_pow10_mono(s@.len() as nat, 19);
    }
    Some(acc)
}

/// Reads one canonical line.  Succeeds exactly on the canonical decimal
/// form of a value in `i64` range, and returns that value.
fn parse_line(s: &[u8]) -> (r: Option<i64>)
    ensures
        r is Some <==> line_valid(s@),
        r matches Some(v) ==> v as int == line_val(s@),
{
    proof {
        lemma_pow10_19();
    }
    if s.len() >= 1 && *slice_index_get(s, 0) == 45 {
        let d = slice_subrange(s, 1, s.len());
        proof {
            assert(d@ =~= s@.skip(1));
        }
        match parse_digits(d) {
            None => None,
            Some(m) => {
                if m == 0 {
                    None
                } else if m > 0x8000000000000000 {
                    None
                } else if m == 0x8000000000000000 {
                    Some(i64::MIN)
                } else {
                    Some(-(m as i64))
                }
            },
        }
    } else {
        match parse_digits(s) {
            None => None,
            Some(m) => {
                if m > 0x7fffffffffffffff {
                    None
                } else {
                    Some(m as i64)
                }
            },
        }
    }
}

/// Reads a whole backing file: canonical newline-closed lines, one
/// subscriber identifier each.  Succeeds exactly when the spec-level parse
/// does, and returns the same identifiers in the same order.
pub fn parse_chats(bytes: &[u8]) -> (r: Result<Vec<Chat>, StorageError>)
    ensures
        r is Ok <==> parse_file(bytes@, 0) is Some,
        r matches Ok(chats) ==> parse_file(bytes@, 0) == Some(
            chats@.map_values(|c: Chat| c.id),
        ),
        r matches Err(e) ==> e == StorageError::Parse,
{
    let n = bytes.len();
    let mut out: Vec<Chat> = Vec::new();
    let mut i: usize = 0;
    proof {
        assert(out@.map_values(|c: Chat| c.id) =~= Seq::<i64>::empty());
        let r = parse_file(bytes@, 0);
        if r is Some {
            assert(Seq::<i64>::empty() + r.unwrap() =~= r.unwrap());
        }
    }
    while i < n
        invariant
            n == bytes@.len(),
            0 <= i <= n,
            parse_file(bytes@, 0) == prepend_parsed(
                out@.map_values(|c: Chat| c.id),
                parse_file(bytes@, i as int),
            ),
        decreases n - i,
    {
        let mut j: usize = i;
        while j < n && *slice_index_get(bytes, j) != 10
            invariant
                n == bytes@.len(),
                i <= j <= n,
                forall|m: int| i <= m < j ==> bytes@[m] != 10,
            decreases n - j,
        {
            j += 1;
        }
        proof {
            lemma_find_nl_char(bytes@, i as int, j as int);
        }
        if j == n {
            return Err(StorageError::Parse);
        }
        let line = slice_subrange(bytes, i, j);
        match parse_line(line) {
            None => {
                return Err(StorageError::Parse);
            },
            Some(v) => {
                let ghost before = out@.map_values(|c: Chat| c.id);
                out.push(Chat { id: v });
                proof {
                    assert(out@.map_values(|c: Chat| c.id) =~= before.push(v));
                    let r = parse_file(bytes@, j + 1);
                    if r is Some {
                        let rest = r.unwrap();
                        assert(parse_file(bytes@, i as int) == Some(seq![v as i64] + rest));
                        assert(before + (seq![v as i64] + rest) =~= before.push(v) + rest);
                    }
                }
                i = j + 1;
            },
        }
    }
    proof {
        assert(parse_file(bytes@, i as int) == Some(Seq::<i64>::empty()));
        assert(out@.map_values(|c: Chat| c.id) + Seq::<i64>::empty() =~= out@.map_values(
            |c: Chat| c.id,
        ));
    }
    Ok(out)
}

/// The parsed remainder of a file, with the lines already read put back in
/// front: `None` stays `None`.
pub open spec fn prepend_parsed(pre: Seq<i64>, r: Option<Seq<i64>>) -> Option<Seq<i64>> {
    match r {
        Option::None => Option::None,
        Option::Some(rest) => Option::Some(pre + rest),
    }
}

/// The encoded file of a nonempty list starts with the first identifier's
/// line and continues with the encoding of the rest.
pub proof fn lemma_encode_ids_first(ids: Seq<i64>)
    requires
        ids.len() >= 1,
    ensures
        encode_ids(ids) == i64_dec(ids[0] as int) + seq![10u8] + encode_ids(ids.drop_first()),
    decreases ids.len(),
{
    if ids.len() == 1 {
        assert(ids.drop_last() =~= Seq::<i64>::empty());
        assert(ids.drop_first() =~= Seq::<i64>::empty());
        assert(ids.last() == ids[0]);
        assert(encode_ids(ids) =~= i64_dec(ids[0] as int) + seq![10u8] + encode_ids(
            ids.drop_first(),
        ));
    } else {
        let dl = ids.drop_last();
        let df = ids.drop_first();
        lemma_encode_ids_first(dl);
        assert(dl[0] == ids[0]);
        assert(df.drop_last() =~= dl.drop_first());
        assert(df.last() == ids.last());
        assert(encode_ids(ids) =~= i64_dec(ids[0] as int) + seq![10u8] + (encode_ids(
            dl.drop_first(),
        ) + i64_dec(ids.last() as int) + seq![10u8]));
    }
}

/// Looking for a newline past a prefix is looking for it in the suffix.
pub proof fn lemma_find_nl_shift(pre: Seq<u8>, t: Seq<u8>, i: int)
    requires
        0 <= i <= t.len(),
    ensures
        find_nl(pre + t, pre.len() + i) == pre.len() + find_nl(t, i),
{
    let s = pre + t;
    lemma_find_nl(t, i);
    let j = find_nl(t, i);
    assert forall|m: int| pre.len() + i <= m < pre.len() + j implies s[m] != 10 by {
        assert(s[m] == t[m - pre.len()]);
    }
    if j < t.len() {
        assert(s[pre.len() + j] == t[j]);
    }
    lemma_find_nl_char(s, pre.len() + i, pre.len() + j);
}

/// Parsing past a prefix is parsing the suffix.
pub proof fn lemma_parse_file_shift(pre: Seq<u8>, t: Seq<u8>, i: int)
    requires
        0 <= i <= t.len(),
    ensures
        parse_file(pre + t, pre.len() + i) == parse_file(t, i),
    decreases t.len() - i,
{
    let s = pre + t;
    if i < t.len() {
        lemma_find_nl(t, i);
        lemma_find_nl_shift(pre, t, i);
        let k = find_nl(t, i);
        if k < t.len() {
            assert(s.subrange(pre.len() + i, pre.len() + k) =~= t.subrange(i, k));
            lemma_parse_file_shift(pre, t, k + 1);
        }
    }
}

/// Storage round-trip: a file the encoder wrote parses back to exactly the
/// identifiers it was written from.
pub proof fn lemma_encode_parse_roundtrip(ids: Seq<i64>)
    ensures
        parse_file(encode_ids(ids), 0) == Some(ids),
    decreases ids.len(),
{
    if ids.len() == 0 {
        assert(encode_ids(ids).len() == 0);
    } else {
        let v = ids[0] as int;
        let a = i64_dec(v);
        let rest = encode_ids(ids.drop_first());
        lemma_encode_ids_first(ids);
        lemma_i64_dec_line(v);
        let s = encode_ids(ids);
        let pre = a + seq![10u8];
        assert(s =~= pre + rest);
        assert forall|m: int| 0 <= m < a.len() implies s[m] != 10 by {
            assert(s[m] == a[m]);
        }
        assert(s[a.len() as int] == 10);
        lemma_find_nl_char(s, 0, a.len() as int);
        assert(s.subrange(0, a.len() as int) =~= a);
        lemma_parse_file_shift(pre, rest, 0);
        lemma_encode_parse_roundtrip(ids.drop_first());
        assert(parse_file(s, a.len() as int + 1) == Some(ids.drop_first()));
        assert(0 < s.len());
        assert(find_nl(s, 0) == a.len() < s.len());
        assert(parse_file(s, 0) == Some(seq![line_val(a) as i64] + ids.drop_first()));
        assert(seq![ids[0]] + ids.drop_first() =~= ids);
    }
}

} // verus!
