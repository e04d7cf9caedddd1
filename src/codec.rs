use vstd::prelude::*;

use crate::model::{Operation, Operations, Transfer};

verus! {

/// The lower-case hexadecimal digit of a value below 16.
pub open spec fn hex_digit(n: u8) -> u8 {
    if n < 10 {
        (48 + n) as u8
    } else {
        (87 + n) as u8
    }
}

/// Two hexadecimal digits per byte, high nibble first.
pub open spec fn hex_of(b: Seq<u8>) -> Seq<u8> {
    Seq::new(
        2 * b.len(),
        |i: int|
            hex_digit(
                if i % 2 == 0 {
                    b[i / 2] / 16
                } else {
                    b[i / 2] % 16
                },
            ),
    )
}

/// The `i`-th nibble of `n`, most significant first.
pub open spec fn nibble(n: u64, i: int) -> u8 {
    ((n >> ((60 - 4 * i) as u64)) & 15) as u8
}

/// Sixteen hexadecimal digits of `n`, most significant first.
pub open spec fn hex_u64(n: u64) -> Seq<u8> {
    Seq::new(16, |i: int| hex_digit(nibble(n, i)))
}

/// `transfer 0x`
pub open spec fn transfer_tag() -> Seq<u8> {
    seq![116u8, 114, 97, 110, 115, 102, 101, 114, 32, 48, 120]
}

/// ` 0x`
pub open spec fn field_sep() -> Seq<u8> {
    seq![32u8, 48, 120]
}

/// `wait 0x`
pub open spec fn wait_tag() -> Seq<u8> {
    seq![119u8, 97, 105, 116, 32, 48, 120]
}

/// One line of the text form of a script: the kind of the operation, then
/// its fields in hexadecimal.
pub open spec fn record(op: Operation) -> Seq<u8> {
    match op {
        Operation::Transfer(t) => transfer_tag() + hex_of(t.to@) + field_sep() + hex_of(t.amount@)
            + seq![10u8],
        Operation::Wait(ms) => wait_tag() + hex_u64(ms) + seq![10u8],
    }
}

/// The text form of a script: one line per operation, in order.
pub open spec fn encoding(ops: Seq<Operation>) -> Seq<u8>
    decreases ops.len(),
{
    if ops.len() == 0 {
        Seq::empty()
    } else {
        encoding(ops.drop_last()) + record(ops.last())
    }
}

fn hex_digit_exec(n: u8) -> (r: u8)
    requires
        n < 16,
    ensures
        r == hex_digit(n),
{
    if n < 10 {
        48 + n
    } else {
        87 + n
    }
}

/// Value of a lower-case hexadecimal digit.
fn digit_value(c: u8) -> (r: Option<u8>)
    ensures
        match r {
            Some(v) => v < 16 && hex_digit(v) == c,
            None => forall|v: u8| v < 16 ==> hex_digit(v) != c,
        },
{
    if 48 <= c && c <= 57 {
        Some(c - 48)
    } else if 97 <= c && c <= 102 {
        Some(c - 87)
    } else {
        None
    }
}

fn push_bytes(out: &mut Vec<u8>, s: &Vec<u8>)
    ensures
        final(out)@ == old(out)@ + s@,
{
    let mut i: usize = 0;
    while i < s.len()
        invariant
            i <= s@.len(),
            out@ == old(out)@ + s@.subrange(0, i as int),
        decreases s@.len() - i,
    {
        out.push(s[i]);
        i = i + 1;
        assert(s@.subrange(0, i as int) =~= s@.subrange(0, i - 1) + seq![s@[i - 1]]);
    }
    assert(s@.subrange(0, s@.len() as int) =~= s@);
}

fn transfer_tag_exec() -> (r: Vec<u8>)
    ensures
        r@ == transfer_tag(),
{
    let r: Vec<u8> = vec![116u8, 114, 97, 110, 115, 102, 101, 114, 32, 48, 120];
    assert(r@ =~= transfer_tag());
    r
}

fn field_sep_exec() -> (r: Vec<u8>)
    ensures
        r@ == field_sep(),
{
    let r: Vec<u8> = vec![32u8, 48, 120];
    assert(r@ =~= field_sep());
    r
}

fn wait_tag_exec() -> (r: Vec<u8>)
    ensures
        r@ == wait_tag(),
{
    let r: Vec<u8> = vec![119u8, 97, 105, 116, 32, 48, 120];
    assert(r@ =~= wait_tag());
    r
}

proof fn lemma_hex_digit_injective(a: u8, b: u8)
    requires
        a < 16,
        b < 16,
        hex_digit(a) == hex_digit(b),
    ensures
        a == b,
{
}

/// Appends the hexadecimal digits of `b`.
fn push_hex<const N: usize>(out: &mut Vec<u8>, b: &[u8; N])
    ensures
        final(out)@ == old(out)@ + hex_of(b@),
{
    let mut i: usize = 0;
    while i < N
        invariant
            i <= N,
            b@.len() == N,
            out@ == old(out)@ + hex_of(b@.subrange(0, i as int)),
        decreases N - i,
    {
        let x = b[i];
        out.push(hex_digit_exec(x / 16));
        out.push(hex_digit_exec(x % 16));
        i = i + 1;
        assert(hex_of(b@.subrange(0, i as int)) =~= hex_of(b@.subrange(0, i - 1)) + seq![
            hex_digit(x / 16),
            hex_digit(x % 16),
        ]);
    }
    assert(b@.subrange(0, N as int) =~= b@);
}

/// Reads `2 * N` hexadecimal digits at `pos` as `N` bytes.
fn read_hex<const N: usize>(b: &Vec<u8>, pos: usize) -> (r: Option<[u8; N]>)
    ensures
        r matches Some(a) ==> pos + 2 * N <= b@.len() && b@.subrange(
            pos as int,
            pos + 2 * N,
        ) == hex_of(a@),
        forall|s: Seq<u8>|
            s.len() == N && pos + 2 * N <= b@.len() && b@.subrange(pos as int, pos + 2 * N)
                == hex_of(s) ==> (r matches Some(a) && a@ == s),
{
    let len = b.len();
    if N > len / 2 || pos > len - 2 * N {
        return None;
    }
    let mut out: [u8; N] = [0u8; N];
    let mut i: usize = 0;
    while i < N
        invariant
            i <= N,
            pos + 2 * N <= b@.len(),
            len == b@.len(),
            out@.len() == N,
            forall|j: int|
                0 <= j < i ==> hex_digit(#[trigger] out@[j] / 16) == b@[pos + 2 * j] && hex_digit(
                    out@[j] % 16,
                ) == b@[pos + 2 * j + 1],
            forall|s: Seq<u8>|
                s.len() == N && b@.subrange(pos as int, pos + 2 * N) == hex_of(s) ==> forall|
                    j: int,
                | 0 <= j < i ==> #[trigger] out@[j] == s[j],
        decreases N - i,
    {
        let hi = digit_value(b[pos + 2 * i]);
        let lo = digit_value(b[pos + 2 * i + 1]);
        match (hi, lo) {
            (Some(h), Some(l)) => {
                let ghost before = out@;
                out[i] = h * 16 + l;
                proof {
                    assert forall|s: Seq<u8>|
                        s.len() == N && b@.subrange(pos as int, pos + 2 * N) == hex_of(
                            s,
                        ) implies forall|j: int| 0 <= j < i + 1 ==> #[trigger] out@[j] == s[j] by {
                        assert(b@[pos + 2 * i] == hex_of(s)[2 * i]);
                        assert(b@[pos + 2 * i + 1] == hex_of(s)[2 * i + 1]);
                        lemma_hex_digit_injective(h, s[i as int] / 16);
                        lemma_hex_digit_injective(l, s[i as int] % 16);
                        assert forall|j: int| 0 <= j < i + 1 implies #[trigger] out@[j] == s[j] by {
                            if j < i {
                                assert(before[j] == s[j]);
                            }
                        }
                    }
                }
            },
            _ => {
                proof {
                    assert forall|s: Seq<u8>|
                        s.len() == N && pos + 2 * N <= b@.len() && b@.subrange(
                            pos as int,
                            pos + 2 * N,
                        ) == hex_of(s) implies false by {
                        assert(b@[pos + 2 * i] == hex_of(s)[2 * i]);
                        assert(b@[pos + 2 * i + 1] == hex_of(s)[2 * i + 1]);
                    }
                }
                return None;
            },
        }
        i = i + 1;
    }
    assert(b@.subrange(pos as int, pos + 2 * N) =~= hex_of(out@));
    proof {
        assert forall|s: Seq<u8>|
            s.len() == N && b@.subrange(pos as int, pos + 2 * N) == hex_of(s) implies out@
            == s by {
            assert(out@ =~= s);
        }
    }
    Some(out)
}

proof fn lemma_shift_in_nibble(a: u64, d: u64, s: u64)
    requires
        d < 16,
        s <= 56,
    ensures
        (((a << 4u64) | d) >> (s + 4)) & 15 == (a >> s) & 15,
        ((a << 4u64) | d) & 15 == d,
{
    assert((((a << 4u64) | d) >> (s + 4)) & 15 == (a >> s) & 15) by (bit_vector)
        requires
            d < 16,
            s <= 56,
    ;
    assert(((a << 4u64) | d) & 15 == d) by (bit_vector)
        requires
            d < 16,
    ;
}

proof fn lemma_shift_in_bound(a: u64, d: u64, s: u64)
    requires
        d < 16,
        s <= 56,
        a >> s == 0,
    ensures
        ((a << 4u64) | d) >> (s + 4) == 0,
{
    assert(((a << 4u64) | d) >> (s + 4) == 0) by (bit_vector)
        requires
            d < 16,
            s <= 56,
            a >> s == 0,
    ;
}

proof fn lemma_nibble_eq(a: u64, b: u64, s: u64)
    requires
        ((a >> s) & 15) as u8 == ((b >> s) & 15) as u8,
    ensures
        (a >> s) & 15 == (b >> s) & 15,
{
    assert((a >> s) & 15 < 16) by (bit_vector);
    assert((b >> s) & 15 < 16) by (bit_vector);
}

proof fn lemma_nibbles_determine(a: u64, b: u64)
    requires
        forall|i: int| 0 <= i < 16 ==> #[trigger] nibble(a, i) == nibble(b, i),
    ensures
        a == b,
{
    assert(nibble(a, 0) == nibble(b, 0));
    lemma_nibble_eq(a, b, 60);
    assert(nibble(a, 1) == nibble(b, 1));
    lemma_nibble_eq(a, b, 56);
    assert(nibble(a, 2) == nibble(b, 2));
    lemma_nibble_eq(a, b, 52);
    assert(nibble(a, 3) == nibble(b, 3));
    lemma_nibble_eq(a, b, 48);
    assert(nibble(a, 4) == nibble(b, 4));
    lemma_nibble_eq(a, b, 44);
    assert(nibble(a, 5) == nibble(b, 5));
    lemma_nibble_eq(a, b, 40);
    assert(nibble(a, 6) == nibble(b, 6));
    lemma_nibble_eq(a, b, 36);
    assert(nibble(a, 7) == nibble(b, 7));
    lemma_nibble_eq(a, b, 32);
    assert(nibble(a, 8) == nibble(b, 8));
    lemma_nibble_eq(a, b, 28);
    assert(nibble(a, 9) == nibble(b, 9));
    lemma_nibble_eq(a, b, 24);
    assert(nibble(a, 10) == nibble(b, 10));
    lemma_nibble_eq(a, b, 20);
    assert(nibble(a, 11) == nibble(b, 11));
    lemma_nibble_eq(a, b, 16);
    assert(nibble(a, 12) == nibble(b, 12));
    lemma_nibble_eq(a, b, 12);
    assert(nibble(a, 13) == nibble(b, 13));
    lemma_nibble_eq(a, b, 8);
    assert(nibble(a, 14) == nibble(b, 14));
    lemma_nibble_eq(a, b, 4);
    assert(nibble(a, 15) == nibble(b, 15));
    lemma_nibble_eq(a, b, 0);
    assert(a == b) by (bit_vector)
        requires
            (a >> 60u64) & 15 == (b >> 60u64) & 15,
            (a >> 56u64) & 15 == (b >> 56u64) & 15,
            (a >> 52u64) & 15 == (b >> 52u64) & 15,
            (a >> 48u64) & 15 == (b >> 48u64) & 15,
            (a >> 44u64) & 15 == (b >> 44u64) & 15,
            (a >> 40u64) & 15 == (b >> 40u64) & 15,
            (a >> 36u64) & 15 == (b >> 36u64) & 15,
            (a >> 32u64) & 15 == (b >> 32u64) & 15,
            (a >> 28u64) & 15 == (b >> 28u64) & 15,
            (a >> 24u64) & 15 == (b >> 24u64) & 15,
            (a >> 20u64) & 15 == (b >> 20u64) & 15,
            (a >> 16u64) & 15 == (b >> 16u64) & 15,
            (a >> 12u64) & 15 == (b >> 12u64) & 15,
            (a >> 8u64) & 15 == (b >> 8u64) & 15,
            (a >> 4u64) & 15 == (b >> 4u64) & 15,
            (a >> 0u64) & 15 == (b >> 0u64) & 15,
    ;
}

/// Appends the sixteen hexadecimal digits of `n`.
fn push_hex_u64(out: &mut Vec<u8>, n: u64)
    ensures
        final(out)@ == old(out)@ + hex_u64(n),
{
    let mut i: u64 = 0;
    while i < 16
        invariant
            i <= 16,
            out@ == old(out)@ + hex_u64(n).subrange(0, i as int),
        decreases 16 - i,
    {
        let sh: u64 = 60 - 4 * i;
        let d = ((n >> sh) & 15) as u8;
        assert(((n >> sh) & 15) < 16) by (bit_vector);
        out.push(hex_digit_exec(d));
        i = i + 1;
        assert(hex_u64(n).subrange(0, i as int) =~= hex_u64(n).subrange(0, i - 1) + seq![
            hex_digit(d),
        ]);
    }
    assert(hex_u64(n).subrange(0, 16) =~= hex_u64(n));
}

/// Reads sixteen hexadecimal digits at `pos` as a number.
fn read_hex_u64(b: &Vec<u8>, pos: usize) -> (r: Option<u64>)
    ensures
        r matches Some(n) ==> pos + 16 <= b@.len() && b@.subrange(pos as int, pos + 16)
            == hex_u64(n),
        forall|n: u64|
            pos + 16 <= b@.len() && b@.subrange(pos as int, pos + 16) == hex_u64(n) ==> r
                == Some(n),
{
    let len = b.len();
    if len < 16 || pos > len - 16 {
        return None;
    }
    let mut acc: u64 = 0;
    let mut i: u64 = 0;
    assert(acc >> 0u64 == 0) by (bit_vector)
        requires
            acc == 0,
    ;
    while i < 16
        invariant
            i <= 16,
            pos + 16 <= b@.len(),
            len == b@.len(),
            i < 16 ==> acc >> ((4 * i) as u64) == 0,
            forall|j: int|
                0 <= j < i ==> hex_digit(#[trigger] ((acc >> ((4 * (i - 1 - j)) as u64)) & 15) as u8)
                    == b@[pos + j] && (acc >> ((4 * (i - 1 - j)) as u64)) & 15 < 16,
        decreases 16 - i,
    {
        match digit_value(b[pos + i as usize]) {
            Some(d) => {
                let ghost old_acc = acc;
                proof {
                    lemma_shift_in_nibble(old_acc, d as u64, 0);
                    if i < 15 {
                        lemma_shift_in_bound(old_acc, d as u64, (4 * i) as u64);
                    }
                    assert forall|j: int| 0 <= j < i implies ((((old_acc << 4u64) | d as u64)
                        >> ((4 * (i - j)) as u64)) & 15) == #[trigger] ((old_acc >> ((4 * (i - 1 - j)) as u64))
                        & 15) by {
                        lemma_shift_in_nibble(old_acc, d as u64, (4 * (i - 1 - j)) as u64);
                    }
                }
                acc = (acc << 4) | d as u64;
                i = i + 1;
                proof {
                    assert forall|j: int| 0 <= j < i implies hex_digit(
                        #[trigger] ((acc >> ((4 * (i - 1 - j)) as u64)) & 15) as u8,
                    ) == b@[pos + j] && (acc >> ((4 * (i - 1 - j)) as u64)) & 15 < 16 by {
                        if j < i - 1 {
                            let sh = (4 * (i - 2 - j)) as u64;
                            lemma_shift_in_nibble(old_acc, d as u64, sh);
                            assert(((4 * (i - 1 - j)) as u64) == sh + 4);
                            assert(hex_digit(((old_acc >> sh) & 15) as u8) == b@[pos + j]);
                        } else {
                            assert(acc >> 0u64 == acc) by (bit_vector);
                            assert(((4 * (i - 1 - j)) as u64) == 0);
                        }
                    }
                }
            },
            None => {
                proof {
                    assert forall|n: u64|
                        pos + 16 <= b@.len() && b@.subrange(pos as int, pos + 16) == hex_u64(
                            n,
                        ) implies false by {
                        assert(b@[pos + i] == hex_u64(n)[i as int]);
                        assert(nibble(n, i as int) < 16) by {
                            let s = (60 - 4 * i) as u64;
                            assert((n >> s) & 15 < 16) by (bit_vector);
                        }
                    }
                }
                return None;
            },
        }
    }
    assert forall|k: int| 0 <= k < 16 implies b@[pos + k] == hex_u64(acc)[k] by {
        assert(hex_digit(((acc >> ((4 * (16 - 1 - k)) as u64)) & 15) as u8) == b@[pos + k]);
        assert(((4 * (16 - 1 - k)) as u64) == ((60 - 4 * k) as u64));
    }
    assert(b@.subrange(pos as int, pos + 16) =~= hex_u64(acc));
    proof {
        assert forall|n: u64|
            pos + 16 <= b@.len() && b@.subrange(pos as int, pos + 16) == hex_u64(n) implies acc
            == n by {
            assert forall|k: int| 0 <= k < 16 implies #[trigger] nibble(acc, k) == nibble(n, k) by {
                assert(hex_u64(acc)[k] == hex_u64(n)[k]);
                let s = (60 - 4 * k) as u64;
                assert((n >> s) & 15 < 16) by (bit_vector);
                assert((acc >> s) & 15 < 16) by (bit_vector);
                lemma_hex_digit_injective(nibble(acc, k), nibble(n, k));
            }
            lemma_nibbles_determine(acc, n);
        }
    }
    Some(acc)
}

/// Whether `t` stands in `b` at `pos`.
fn matches_at(b: &Vec<u8>, pos: usize, t: &Vec<u8>) -> (r: bool)
    ensures
        r == (pos + t@.len() <= b@.len() && b@.subrange(pos as int, pos + t@.len()) == t@),
{
    let len = b.len();
    if t.len() > len || pos > len - t.len() {
        return false;
    }
    let mut i: usize = 0;
    while i < t.len()
        invariant
            i <= t@.len(),
            pos + t@.len() <= b@.len(),
            len == b@.len(),
            forall|j: int| 0 <= j < i ==> b@[pos + j] == t@[j],
        decreases t@.len() - i,
    {
        if b[pos + i] != t[i] {
            assert(b@.subrange(pos as int, pos + t@.len())[i as int] != t@[i as int]);
            return false;
        }
        i = i + 1;
    }
    assert(b@.subrange(pos as int, pos + t@.len()) =~= t@);
    true
}

/// Appends the line of one operation.
fn push_record(out: &mut Vec<u8>, op: &Operation)
    ensures
        final(out)@ == old(out)@ + record(*op),
{
    match op {
        Operation::Transfer(t) => {
            push_bytes(out, &transfer_tag_exec());
            push_hex(out, &t.to);
            push_bytes(out, &field_sep_exec());
            push_hex(out, &t.amount);
            out.push(10u8);
        },
        Operation::Wait(ms) => {
            push_bytes(out, &wait_tag_exec());
            push_hex_u64(out, *ms);
            out.push(10u8);
        },
    }
    assert(final(out)@ =~= old(out)@ + record(*op));
}

proof fn lemma_subrange_split(b: Seq<u8>, lo: int, mid: int, hi: int)
    requires
        0 <= lo <= mid <= hi <= b.len(),
    ensures
        b.subrange(lo, hi) == b.subrange(lo, mid) + b.subrange(mid, hi),
{
    assert(b.subrange(lo, hi) =~= b.subrange(lo, mid) + b.subrange(mid, hi));
}

proof fn lemma_subrange_of_match(b: Seq<u8>, lo: int, s: Seq<u8>, i: int, j: int)
    requires
        0 <= lo,
        lo + s.len() <= b.len(),
        b.subrange(lo, lo + s.len()) == s,
        0 <= i <= j <= s.len(),
    ensures
        b.subrange(lo + i, lo + j) == s.subrange(i, j),
{
    assert forall|k: int| 0 <= k < j - i implies b.subrange(lo + i, lo + j)[k] == s.subrange(
        i,
        j,
    )[k] by {
        assert(b[lo + i + k] == b.subrange(lo, lo + s.len())[i + k]);
    }
    assert(b.subrange(lo + i, lo + j) =~= s.subrange(i, j));
}

fn read_transfer(b: &Vec<u8>, pos: usize) -> (r: Option<Transfer>)
    ensures
        r matches Some(t) ==> pos + 119 <= b@.len() && b@.subrange(pos as int, pos + 119)
            == record(Operation::Transfer(t)),
        forall|t: Transfer|
            pos + 119 <= b@.len() && b@.subrange(pos as int, pos + 119) == record(
                Operation::Transfer(t),
            ) ==> r == Some(t),
{
    let len = b.len();
    let ghost bs = b@;
    if matches_at(b, pos, &transfer_tag_exec()) {
        let at_to = pos + 11;
        let to: Option<[u8; 20]> = read_hex(b, at_to);
        if let Some(to) = to {
            let at_sep = at_to + 40;
            if matches_at(b, at_sep, &field_sep_exec()) {
                let at_amount = at_sep + 3;
                let amount: Option<[u8; 32]> = read_hex(b, at_amount);
                if let Some(amount) = amount {
                    let at_end = at_amount + 64;
                    if at_end < len && b[at_end] == 10 {
                        let t = Transfer { to, amount };
                        proof {
                            lemma_subrange_split(bs, pos as int, at_to as int, at_end + 1);
                            lemma_subrange_split(bs, at_to as int, at_sep as int, at_end + 1);
                            lemma_subrange_split(bs, at_sep as int, at_amount as int, at_end + 1);
                            lemma_subrange_split(bs, at_amount as int, at_end as int, at_end + 1);
                            assert(bs.subrange(at_end as int, at_end + 1) =~= seq![10u8]);
                            assert(bs.subrange(pos as int, at_end + 1) =~= record(
                                Operation::Transfer(t),
                            ));
                            assert forall|u: Transfer|
                                pos + 119 <= bs.len() && bs.subrange(pos as int, pos + 119)
                                    == record(Operation::Transfer(u)) implies u == t by {
                                let o = Operation::Transfer(u);
                                lemma_subrange_of_match(bs, pos as int, record(o), 11, 51);
                                lemma_subrange_of_match(bs, pos as int, record(o), 54, 118);
                                assert(record(o).subrange(11, 51) =~= hex_of(u.to@));
                                assert(record(o).subrange(54, 118) =~= hex_of(u.amount@));
                                assert(u.to@ == to@);
                                assert(u.amount@ == amount@);
                                assert(u.to == to);
                                assert(u.amount == amount);
                            }
                        }
                        return Some(t);
                    }
                }
            }
        }
    }
    proof {
        assert forall|u: Transfer|
            pos + 119 <= bs.len() && bs.subrange(pos as int, pos + 119) == record(
                Operation::Transfer(u),
            ) implies false by {
            let o = Operation::Transfer(u);
            lemma_subrange_of_match(bs, pos as int, record(o), 0, 11);
            lemma_subrange_of_match(bs, pos as int, record(o), 11, 51);
            lemma_subrange_of_match(bs, pos as int, record(o), 51, 54);
            lemma_subrange_of_match(bs, pos as int, record(o), 54, 118);
            assert(record(o).subrange(0, 11) =~= transfer_tag());
            assert(record(o).subrange(11, 51) =~= hex_of(u.to@));
            assert(record(o).subrange(51, 54) =~= field_sep());
            assert(record(o).subrange(54, 118) =~= hex_of(u.amount@));
            assert(bs.subrange(pos as int, pos + 119)[118] == record(o)[118]);
        }
    }
    None
}

fn read_wait(b: &Vec<u8>, pos: usize) -> (r: Option<u64>)
    ensures
        r matches Some(m) ==> pos + 24 <= b@.len() && b@.subrange(pos as int, pos + 24)
            == record(Operation::Wait(m)),
        forall|m: u64|
            pos + 24 <= b@.len() && b@.subrange(pos as int, pos + 24) == record(Operation::Wait(m))
                ==> r == Some(m),
{
    let len = b.len();
    let ghost bs = b@;
    if matches_at(b, pos, &wait_tag_exec()) {
        let at_ms = pos + 7;
        let ms = read_hex_u64(b, at_ms);
        if let Some(ms) = ms {
            let at_end = at_ms + 16;
            if at_end < len && b[at_end] == 10 {
                proof {
                    lemma_subrange_split(bs, pos as int, at_ms as int, at_end + 1);
                    lemma_subrange_split(bs, at_ms as int, at_end as int, at_end + 1);
                    assert(bs.subrange(at_end as int, at_end + 1) =~= seq![10u8]);
                    assert(bs.subrange(pos as int, at_end + 1) =~= record(Operation::Wait(ms)));
                    assert forall|m: u64|
                        pos + 24 <= bs.len() && bs.subrange(pos as int, pos + 24) == record(
                            Operation::Wait(m),
                        ) implies m == ms by {
                        let o = Operation::Wait(m);
                        lemma_subrange_of_match(bs, pos as int, record(o), 7, 23);
                        assert(record(o).subrange(7, 23) =~= hex_u64(m));
                    }
                }
                return Some(ms);
            }
        }
    }
    proof {
        assert forall|m: u64|
            pos + 24 <= bs.len() && bs.subrange(pos as int, pos + 24) == record(Operation::Wait(m))
                implies false by {
            let o = Operation::Wait(m);
            lemma_subrange_of_match(bs, pos as int, record(o), 0, 7);
            lemma_subrange_of_match(bs, pos as int, record(o), 7, 23);
            assert(record(o).subrange(0, 7) =~= wait_tag());
            assert(record(o).subrange(7, 23) =~= hex_u64(m));
            assert(bs.subrange(pos as int, pos + 24)[23] == record(o)[23]);
        }
    }
    None
}

/// Reads the line of one operation at `pos`; gives it with the position
/// after it.
fn read_record(b: &Vec<u8>, pos: usize) -> (r: Option<(Operation, usize)>)
    ensures
        r matches Some((op, end)) ==> end == pos + record(op).len() && end <= b@.len()
            && b@.subrange(pos as int, end as int) == record(op),
        forall|op: Operation|
            pos + record(op).len() <= b@.len() && b@.subrange(pos as int, pos + record(op).len())
                == record(op) ==> r == Some((op, (pos + record(op).len()) as usize)),
{
    let ghost bs = b@;
    let _len = b.len();
    match read_transfer(b, pos) {
        Some(t) => {
            proof {
                assert forall|op: Operation|
                    pos + record(op).len() <= bs.len() && bs.subrange(
                        pos as int,
                        pos + record(op).len(),
                    ) == record(op) implies op == Operation::Transfer(t) by {
                    if let Operation::Wait(m) = op {
                        assert(bs.subrange(pos as int, pos + 119)[0] == record(
                            Operation::Transfer(t),
                        )[0]);
                        assert(bs.subrange(pos as int, pos + 24)[0] == record(op)[0]);
                    }
                }
            }
            Some((Operation::Transfer(t), pos + 119))
        },
        None => match read_wait(b, pos) {
            Some(m) => Some((Operation::Wait(m), pos + 24)),
            None => None,
        },
    }
}

proof fn lemma_encoding_prefix(x: Seq<Operation>, k: int)
    requires
        0 <= k <= x.len(),
    ensures
        encoding(x.take(k)).len() <= encoding(x).len(),
        encoding(x).subrange(0, encoding(x.take(k)).len() as int) == encoding(x.take(k)),
    decreases x.len(),
{
    if k == x.len() {
        assert(x.take(k) =~= x);
        assert(encoding(x).subrange(0, encoding(x).len() as int) =~= encoding(x));
    } else {
        let y = x.drop_last();
        assert(x.take(k) =~= y.take(k));
        lemma_encoding_prefix(y, k);
        let e = encoding(y.take(k));
        assert(encoding(x).subrange(0, e.len() as int) =~= encoding(y).subrange(0, e.len() as int));
    }
}

proof fn lemma_encoding_take_next(x: Seq<Operation>, k: int)
    requires
        0 <= k < x.len(),
    ensures
        encoding(x.take(k + 1)) == encoding(x.take(k)) + record(x[k]),
{
    assert(x.take(k + 1).drop_last() =~= x.take(k));
}

proof fn lemma_hex_of_injective(a: Seq<u8>, b: Seq<u8>)
    requires
        a.len() == b.len(),
        hex_of(a) == hex_of(b),
    ensures
        a == b,
{
    assert forall|i: int| 0 <= i < a.len() implies a[i] == b[i] by {
        assert((2 * i) % 2 == 0 && (2 * i) / 2 == i);
        assert((2 * i + 1) % 2 == 1 && (2 * i + 1) / 2 == i);
        assert(hex_of(a)[2 * i] == hex_of(b)[2 * i]);
        assert(hex_of(a)[2 * i + 1] == hex_of(b)[2 * i + 1]);
        assert(hex_of(a)[2 * i] == hex_digit(a[i] / 16));
        assert(hex_of(b)[2 * i] == hex_digit(b[i] / 16));
        assert(hex_of(a)[2 * i + 1] == hex_digit(a[i] % 16));
        assert(hex_of(b)[2 * i + 1] == hex_digit(b[i] % 16));
        lemma_hex_digit_injective(a[i] / 16, b[i] / 16);
        lemma_hex_digit_injective(a[i] % 16, b[i] % 16);
    }
    assert(a =~= b);
}

proof fn lemma_hex_u64_injective(a: u64, b: u64)
    requires
        hex_u64(a) == hex_u64(b),
    ensures
        a == b,
{
    assert forall|k: int| 0 <= k < 16 implies #[trigger] nibble(a, k) == nibble(b, k) by {
        assert(hex_u64(a)[k] == hex_u64(b)[k]);
        assert(hex_u64(a)[k] == hex_digit(nibble(a, k)));
        assert(hex_u64(b)[k] == hex_digit(nibble(b, k)));
        let s = (60 - 4 * k) as u64;
        assert((a >> s) & 15 < 16) by (bit_vector);
        assert((b >> s) & 15 < 16) by (bit_vector);
        lemma_hex_digit_injective(nibble(a, k), nibble(b, k));
    }
    lemma_nibbles_determine(a, b);
}

proof fn lemma_record_shape(op: Operation)
    ensures
        op is Transfer ==> record(op).len() == 119 && record(op)[0] == 116 && record(op)[95]
            != 119,
        op is Wait ==> record(op).len() == 24 && record(op)[0] == 119,
{
    match op {
        Operation::Transfer(t) => {
            let r = record(op);
            assert(r =~= transfer_tag() + (hex_of(t.to@) + (field_sep() + (hex_of(t.amount@)
                + seq![10u8]))));
            assert(r[0] == transfer_tag()[0]);
            assert(r[95] == hex_of(t.amount@)[41]);
        },
        Operation::Wait(m) => {
            let r = record(op);
            assert(r[0] == wait_tag()[0]);
        },
    }
}

proof fn lemma_record_injective(x: Operation, y: Operation)
    requires
        record(x) == record(y),
    ensures
        x == y,
{
    match (x, y) {
        (Operation::Transfer(s), Operation::Transfer(t)) => {
            assert(record(x).subrange(11, 51) =~= hex_of(s.to@));
            assert(record(y).subrange(11, 51) =~= hex_of(t.to@));
            assert(record(x).subrange(54, 118) =~= hex_of(s.amount@));
            assert(record(y).subrange(54, 118) =~= hex_of(t.amount@));
            lemma_hex_of_injective(s.to@, t.to@);
            lemma_hex_of_injective(s.amount@, t.amount@);
            assert(s.to == t.to);
            assert(s.amount == t.amount);
            assert(s == t);
        },
        (Operation::Wait(m), Operation::Wait(n)) => {
            assert(record(x).subrange(7, 23) =~= hex_u64(m));
            assert(record(y).subrange(7, 23) =~= hex_u64(n));
            lemma_hex_u64_injective(m, n);
        },
        _ => {
            lemma_record_shape(x);
            lemma_record_shape(y);
        },
    }
}

/// The text form loses nothing: two scripts with the same text form are the
/// same script, so reading back what was written gives the script written.
pub proof fn lemma_encoding_injective(a: Seq<Operation>, b: Seq<Operation>)
    requires
        encoding(a) == encoding(b),
    ensures
        a == b,
    decreases a.len() + b.len(),
{
    if a.len() == 0 || b.len() == 0 {
        if a.len() > 0 {
            lemma_record_shape(a.last());
        }
        if b.len() > 0 {
            lemma_record_shape(b.last());
        }
        assert(a =~= b);
    } else {
        let ea = encoding(a.drop_last());
        let eb = encoding(b.drop_last());
        let ra = record(a.last());
        let rb = record(b.last());
        let n = encoding(a).len() as int;
        lemma_record_shape(a.last());
        lemma_record_shape(b.last());
        if ra.len() == rb.len() {
            assert(encoding(a).subrange(n - ra.len(), n) =~= ra);
            assert(encoding(b).subrange(n - rb.len(), n) =~= rb);
            lemma_record_injective(a.last(), b.last());
            assert(ea =~= encoding(a).subrange(0, n - ra.len()));
            assert(eb =~= encoding(b).subrange(0, n - rb.len()));
            lemma_encoding_injective(a.drop_last(), b.drop_last());
            assert(a =~= a.drop_last().push(a.last()));
            assert(b =~= b.drop_last().push(b.last()));
        } else if a.last() is Transfer {
            assert(encoding(a)[n - 24] == ra[95]);
            assert(encoding(b)[n - 24] == rb[0]);
        } else {
            assert(encoding(b)[n - 24] == rb[95]);
            assert(encoding(a)[n - 24] == ra[0]);
        }
    }
}

impl Operations {
    /// The text form of the script.
    pub fn to_bytes(&self) -> (r: Vec<u8>)
        ensures
            r@ == encoding(self@),
    {
        let mut out: Vec<u8> = Vec::new();
        let mut i: usize = 0;
        while i < self.0.len()
            invariant
                i <= self@.len(),
                out@ == encoding(self@.take(i as int)),
            decreases self@.len() - i,
        {
            proof {
                lemma_encoding_take_next(self@, i as int);
            }
            push_record(&mut out, &self.0[i]);
            i = i + 1;
        }
        assert(self@.take(self@.len() as int) =~= self@);
        out
    }

    /// The script whose text form is `b`, if `b` is the text form of one.
    pub fn from_bytes(b: &Vec<u8>) -> (r: Option<Operations>)
        ensures
            r matches Some(x) ==> encoding(x@) == b@,
            forall|x: Seq<Operation>| encoding(x) == b@ ==> (r matches Some(y) && y@ == x),
    {
        let len = b.len();
        let mut ops: Vec<Operation> = Vec::new();
        let mut pos: usize = 0;
        while pos < len
            invariant
                pos <= len,
                len == b@.len(),
                b@.subrange(0, pos as int) == encoding(ops@),
                forall|x: Seq<Operation>|
                    encoding(x) == b@ ==> ops@.len() <= x.len() && ops@ == x.take(
                        ops@.len() as int,
                    ),
            decreases len - pos,
        {
            let ghost before = ops@;
            match read_record(b, pos) {
                Some((op, end)) => {
                    ops.push(op);
                    proof {
                        lemma_subrange_split(b@, 0, pos as int, end as int);
                        assert(ops@.drop_last() =~= before);
                        assert forall|x: Seq<Operation>| encoding(x) == b@ implies ops@.len()
                            <= x.len() && ops@ == x.take(ops@.len() as int) by {
                            let k = before.len() as int;
                            if k == x.len() {
                                assert(x.take(k) =~= x);
                            }
                            lemma_encoding_take_next(x, k);
                            lemma_encoding_prefix(x, k + 1);
                            let ek = encoding(x.take(k));
                            lemma_subrange_of_match(
                                encoding(x),
                                0,
                                ek + record(x[k]),
                                pos as int,
                                pos + record(x[k]).len(),
                            );
                            assert((ek + record(x[k])).subrange(pos as int, pos + record(x[k]).len())
                                =~= record(x[k]));
                            assert(ops@ =~= x.take(k + 1));
                        }
                    }
                    pos = end;
                },
                None => {
                    proof {
                        assert forall|x: Seq<Operation>| encoding(x) == b@ implies false by {
                            let k = ops@.len() as int;
                            if k == x.len() {
                                assert(x.take(k) =~= x);
                            }
                            lemma_encoding_take_next(x, k);
                            lemma_encoding_prefix(x, k + 1);
                            let ek = encoding(x.take(k));
                            lemma_subrange_of_match(
                                encoding(x),
                                0,
                                ek + record(x[k]),
                                pos as int,
                                pos + record(x[k]).len(),
                            );
                            assert((ek + record(x[k])).subrange(pos as int, pos + record(x[k]).len())
                                =~= record(x[k]));
                        }
                    }
                    return None;
                },
            }
        }
        assert(b@.subrange(0, len as int) =~= b@);
        proof {
            assert forall|x: Seq<Operation>| encoding(x) == b@ implies ops@ == x by {
                let k = ops@.len() as int;
                if k < x.len() {
                    lemma_encoding_take_next(x, k);
                    lemma_encoding_prefix(x, k + 1);
                    assert(record(x[k]).len() > 0);
                }
                assert(x.take(k) =~= x);
            }
        }
        Some(Operations(ops))
    }
}

} // verus!
