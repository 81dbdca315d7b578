use vstd::prelude::*;
use crate::percent::{from_hex, hex_value};
use crate::text::push_char;
use vstd::string::StringSliceAdditionalSpecFns;

verus! {

/// An IPv6 address as its eight 16-bit groups, most significant first.
#[derive(Clone, Copy, PartialEq, Eq, Debug)]
pub struct IPv6Address {
    pub pieces: [u16; 8],
}

/// Number of hexadecimal digits, at most `n`, that start at `i`.
pub open spec fn hex_run_len(b: Seq<u8>, i: int, n: nat) -> nat
    decreases n,
{
    if n == 0 || i < 0 || i >= b.len() || hex_value(b[i]) is None {
        0
    } else {
        1 + hex_run_len(b, i + 1, (n - 1) as nat)
    }
}

/// Value of the `k` hexadecimal digits that start at `i`.
pub open spec fn hex_run_value(b: Seq<u8>, i: int, k: nat) -> nat
    decreases k,
{
    if k == 0 {
        0
    } else {
        (hex_run_value(b, i, (k - 1) as nat) * 16 + hex_value(b[i + k - 1])->0) as nat
    }
}

pub open spec fn is_digit(c: u8) -> bool {
    0x30 <= c <= 0x39
}

/// Number of decimal digits that start at `i`.
pub open spec fn dec_run_len(b: Seq<u8>, i: int) -> nat
    decreases b.len() - i,
{
    if 0 <= i < b.len() && is_digit(b[i]) {
        1 + dec_run_len(b, i + 1)
    } else {
        0
    }
}

/// Value of the `k` decimal digits that start at `i`.
pub open spec fn dec_run_value(b: Seq<u8>, i: int, k: nat) -> nat
    decreases k,
{
    if k == 0 {
        0
    } else {
        dec_run_value(b, i, (k - 1) as nat) * 10 + (b[i + k - 1] - 0x30) as nat
    }
}

/// A decimal octet at `i`: one or more digits of value at most 255, and the
/// position after them.
pub open spec fn octet(b: Seq<u8>, i: int) -> Option<(u16, int)> {
    let k = dec_run_len(b, i);
    if k == 0 || dec_run_value(b, i, k) > 255 {
        None
    } else {
        Some((dec_run_value(b, i, k) as u16, i + k))
    }
}

pub open spec fn dot_at(b: Seq<u8>, j: int) -> bool {
    0 <= j < b.len() && b[j] == 0x2E
}

/// An embedded IPv4 address `a.b.c.d` from `i` to the end of the input, as two groups.
pub open spec fn ipv4_tail(b: Seq<u8>, i: int) -> Option<(u16, u16)> {
    match octet(b, i) {
        None => None,
        Some((o1, j1)) => if !dot_at(b, j1) {
            None
        } else {
            match octet(b, j1 + 1) {
                None => None,
                Some((o2, j2)) => if !dot_at(b, j2) {
                    None
                } else {
                    match octet(b, j2 + 1) {
                        None => None,
                        Some((o3, j3)) => if !dot_at(b, j3) {
                            None
                        } else {
                            match octet(b, j3 + 1) {
                                Some((o4, j4)) => if j4 == b.len() {
                                    Some(((o1 * 256 + o2) as u16, (o3 * 256 + o4) as u16))
                                } else {
                                    None
                                },
                                None => None,
                            }
                        },
                    }
                },
            }
        },
    }
}

/// The groups read from position `i` on, given `pp` groups filled in `p` and
/// the compression point `cp`: the final groups, count and compression point.
pub open spec fn ipv6_groups(b: Seq<u8>, i: int, pp: int, cp: Option<int>, p: Seq<u16>) -> Option<
    (Seq<u16>, int, Option<int>),
>
    decreases b.len() - i,
{
    if i < 0 || i >= b.len() {
        Some((p, pp, cp))
    } else if pp == 8 {
        None
    } else if b[i] == 0x3A {
        if cp is Some {
            None
        } else {
            ipv6_groups(b, i + 1, pp + 1, Some(pp + 1), p)
        }
    } else {
        let k = hex_run_len(b, i, 4);
        let v = hex_run_value(b, i, k) as u16;
        let j = i + k;
        if j < b.len() && b[j] == 0x2E {
            if k == 0 || pp > 6 {
                None
            } else {
                match ipv4_tail(b, i) {
                    Some((g1, g2)) => Some((p.update(pp, g1).update(pp + 1, g2), pp + 2, cp)),
                    None => None,
                }
            }
        } else if j < b.len() && b[j] == 0x3A {
            if j + 1 == b.len() {
                None
            } else {
                ipv6_groups(b, j + 1, pp + 1, cp, p.update(pp, v))
            }
        } else if j < b.len() {
            None
        } else {
            Some((p.update(pp, v), pp + 1, cp))
        }
    }
}

/// The eight groups once the `pp - c` groups read after the compression point
/// `c` are moved to the end and the gap is filled with zeros.
pub open spec fn expand(p: Seq<u16>, pp: int, c: int) -> Seq<u16> {
    Seq::new(
        8,
        |k: int|
            if k < c {
                p[k]
            } else if k >= 8 - (pp - c) {
                p[k - (8 - pp)]
            } else {
                0u16
            },
    )
}

pub open spec fn zeros8() -> Seq<u16> {
    seq![0u16, 0u16, 0u16, 0u16, 0u16, 0u16, 0u16, 0u16]
}

/// The groups of an IPv6 address written as `b` (without brackets), if it is one.
pub open spec fn ipv6_parsed(b: Seq<u8>) -> Option<Seq<u16>> {
    let start: Option<(int, int, Option<int>)> = if b.len() > 0 && b[0] == 0x3A {
        if b.len() >= 2 && b[1] == 0x3A {
            Some((2, 1, Some(1)))
        } else {
            None
        }
    } else {
        Some((0, 0, None))
    };
    match start {
        None => None,
        Some((i, pp, cp)) => completed(ipv6_groups(b, i, pp, cp, zeros8())),
    }
}

/// The address that the groups read make, if they make one.
pub open spec fn completed(g: Option<(Seq<u16>, int, Option<int>)>) -> Option<Seq<u16>> {
    match g {
        None => None,
        Some((p, n, c)) => match c {
            Some(c) => Some(expand(p, n, c)),
            None => if n == 8 {
                Some(p)
            } else {
                None
            },
        },
    }
}

pub open spec fn int_opt(o: Option<usize>) -> Option<int> {
    match o {
        Some(c) => Some(c as int),
        None => None,
    }
}

pub open spec fn pow16(k: nat) -> nat
    decreases k,
{
    if k == 0 {
        1
    } else {
        16 * pow16((k - 1) as nat)
    }
}

/// Reads up to four hexadecimal digits from `start`.
fn read_hex(b: &[u8], start: usize) -> (r: (u16, usize))
    requires
        start < b@.len(),
    ensures
        r.1 == start + hex_run_len(b@, start as int, 4),
        r.0 == hex_run_value(b@, start as int, hex_run_len(b@, start as int, 4)) as u16,
        r.1 <= b@.len(),
{
    let len = b.len();
    let end = if len - start < 4 { len } else { start + 4 };
    let mut value: u16 = 0;
    let mut i: usize = start;
    while i < end
        invariant
            start <= i <= end <= len,
            len == b@.len(),
            end - start <= 4,
            end == len || end == start + 4,
            forall|k: int| start <= k < i ==> hex_value(#[trigger] b@[k]) is Some,
            hex_run_len(b@, start as int, 4) == (i - start) + hex_run_len(
                b@,
                i as int,
                (4 - (i - start)) as nat,
            ),
            value as nat == hex_run_value(b@, start as int, (i - start) as nat),
            value < pow16((i - start) as nat),
        ensures
            start <= i <= len,
            hex_run_len(b@, start as int, 4) == (i - start),
            value as nat == hex_run_value(b@, start as int, (i - start) as nat),
            value < pow16((i - start) as nat),
        decreases end - i,
    {
        match from_hex(b[i]) {
            Some(digit) => {
                proof {
                    reveal_with_fuel(pow16, 4);
                    let k = (i - start) as nat;
                    assert(pow16(k + 1) == 16 * pow16(k));
                    assert(pow16(k) <= 4096);
                    assert(value * 16 + digit < 16 * pow16(k)) by (nonlinear_arith)
                        requires
                            value < pow16(k),
                            digit < 16,
                    ;
                    assert(hex_run_value(b@, start as int, k + 1) == hex_run_value(
                        b@,
                        start as int,
                        k,
                    ) * 16 + hex_value(b@[start + k])->0);
                }
                value = value * 16 + digit as u16;
                i += 1;
            },
            None => {
                assert(hex_run_len(b@, i as int, (4 - (i - start)) as nat) == 0);
                break;
            },
        }
    }
    (value, i)
}

proof fn lemma_dec_mono(b: Seq<u8>, i: int, k1: nat, k2: nat)
    requires
        k1 <= k2,
    ensures
        dec_run_value(b, i, k1) <= dec_run_value(b, i, k2),
    decreases k2 - k1,
{
    if k1 < k2 {
        lemma_dec_mono(b, i, k1, (k2 - 1) as nat);
        let v = dec_run_value(b, i, (k2 - 1) as nat);
        assert(v <= v * 10) by (nonlinear_arith);
    }
}

/// Reads a decimal octet at `start`.
fn read_octet(b: &[u8], start: usize) -> (r: Option<(u16, usize)>)
    ensures
        match octet(b@, start as int) {
            Some((v, j)) => r == Some((v, j as usize)) && j <= b@.len(),
            None => r is None,
        },
{
    let len = b.len();
    let mut value: u16 = 0;
    let mut i: usize = start;
    if start > len {
        return None;
    }
    while i < len && 0x30 <= b[i] && b[i] <= 0x39
        invariant
            start <= i <= len,
            len == b@.len(),
            dec_run_len(b@, start as int) == (i - start) + dec_run_len(b@, i as int),
            value as nat == dec_run_value(b@, start as int, (i - start) as nat),
            value <= 255,
        decreases len - i,
    {
        let digit = b[i] - 0x30;
        proof {
            let k = (i - start) as nat;
            assert(dec_run_value(b@, start as int, k + 1) == dec_run_value(b@, start as int, k) * 10
                + (b@[start + k] - 0x30) as nat);
        }
        value = value * 10 + digit as u16;
        i += 1;
        if value > 255 {
            proof {
                lemma_dec_mono(b@, start as int, (i - start) as nat, dec_run_len(b@, start as int));
            }
            return None;
        }
    }
    if i == start {
        return None;
    }
    Some((value, i))
}

/// Reads an embedded IPv4 address from `i` to the end of the input.
fn read_ipv4(b: &[u8], i: usize) -> (r: Option<(u16, u16)>)
    ensures
        r == ipv4_tail(b@, i as int),
{
    let len = b.len();
    let (o1, j1) = match read_octet(b, i) {
        Some(x) => x,
        None => return None,
    };
    if !(j1 < len && b[j1] == 0x2E) {
        return None;
    }
    let (o2, j2) = match read_octet(b, j1 + 1) {
        Some(x) => x,
        None => return None,
    };
    if !(j2 < len && b[j2] == 0x2E) {
        return None;
    }
    let (o3, j3) = match read_octet(b, j2 + 1) {
        Some(x) => x,
        None => return None,
    };
    if !(j3 < len && b[j3] == 0x2E) {
        return None;
    }
    let (o4, j4) = match read_octet(b, j3 + 1) {
        Some(x) => x,
        None => return None,
    };
    if j4 != len {
        return None;
    }
    Some((o1 * 256 + o2, o3 * 256 + o4))
}

/// Moves the groups read after the compression point to the end.
fn expand_pieces(p: &Vec<u16>, pp: usize, c: usize) -> (r: [u16; 8])
    requires
        p@.len() == 8,
        c <= pp <= 8,
    ensures
        r@ == expand(p@, pp as int, c as int),
{
    let mut out: [u16; 8] = [0u16; 8];
    let mut k: usize = 0;
    while k < 8
        invariant
            k <= 8,
            c <= pp <= 8,
            p@.len() == 8,
            out@.len() == 8,
            forall|m: int| 0 <= m < k ==> out@[m] == expand(p@, pp as int, c as int)[m],
        decreases 8 - k,
    {
        let v = if k < c {
            p[k]
        } else if k >= 8 - (pp - c) {
            p[k - (8 - pp)]
        } else {
            0
        };
        out[k] = v;
        k += 1;
    }
    proof {
        assert(out@ =~= expand(p@, pp as int, c as int));
    }
    out
}

/// Groups `s` up to `e` are all zero.
pub open spec fn is_zero_run(p: Seq<u16>, s: int, e: int) -> bool {
    0 <= s < e <= 8 && forall|k: int| s <= k < e ==> p[k] == 0
}

/// `s` up to `e` is the run of zero groups that serialization compresses: a
/// longest one, and the leftmost of the longest.
pub open spec fn is_compression(p: Seq<u16>, s: int, e: int) -> bool {
    &&& is_zero_run(p, s, e)
    &&& forall|s2: int, e2: int| #[trigger] is_zero_run(p, s2, e2) ==> e2 - s2 <= e - s
    &&& forall|s2: int| 0 <= s2 < s ==> !#[trigger] is_zero_run(p, s2, s2 + (e - s))
}

/// The run that serialization compresses, if any group is zero.
pub open spec fn compression(p: Seq<u16>) -> Option<(int, int)> {
    if exists|s: int, e: int| is_compression(p, s, e) {
        let (s, e) = choose|s: int, e: int| is_compression(p, s, e);
        Some((s, e))
    } else {
        None
    }
}

pub open spec fn hex_digit_lower(d: nat) -> char {
    if d < 10 {
        (d + 0x30) as char
    } else {
        (d - 10 + 0x61) as char
    }
}

/// Lowercase hexadecimal without leading zeros.
pub open spec fn hex_lower(v: nat) -> Seq<char>
    decreases v,
{
    if v < 16 {
        seq![hex_digit_lower(v)]
    } else {
        hex_lower(v / 16).push(hex_digit_lower(v % 16))
    }
}

/// Groups `lo` up to `hi` in hexadecimal, separated by `:`.
pub open spec fn joined(p: Seq<u16>, lo: int, hi: int) -> Seq<char>
    decreases hi - lo,
{
    if hi <= lo {
        Seq::empty()
    } else if hi == lo + 1 {
        hex_lower(p[lo] as nat)
    } else {
        joined(p, lo, hi - 1) + seq![':'] + hex_lower(p[hi - 1] as nat)
    }
}

/// The text of an address: its groups separated by `:`, with the compressed
/// run of zero groups written `::`.
pub open spec fn ipv6_text(p: Seq<u16>) -> Seq<char> {
    match compression(p) {
        None => joined(p, 0, 8),
        Some((s, e)) => joined(p, 0, s) + seq![':', ':'] + joined(p, e, 8),
    }
}

/// The scan state of the zero-run search up to `bound`: `best` is the
/// compression among the runs that end by `bound`.
pub open spec fn best_so_far(p: Seq<u16>, best: Option<(int, int)>, bound: int) -> bool {
    match best {
        None => forall|k: int| 0 <= k < bound ==> p[k] != 0,
        Some((s, e)) => {
            &&& is_zero_run(p, s, e)
            &&& e <= bound
            &&& forall|s2: int, e2: int| #[trigger]
                is_zero_run(p, s2, e2) && e2 <= bound ==> e2 - s2 <= e - s
            &&& forall|s2: int| 0 <= s2 < s ==> !#[trigger] is_zero_run(p, s2, s2 + (e - s))
        },
    }
}

pub open spec fn closed(best: Option<(int, int)>, start: int, i: int) -> Option<(int, int)> {
    if start < i && match best {
        None => true,
        Some((s, e)) => i - start > e - s,
    } {
        Some((start, i))
    } else {
        best
    }
}

proof fn lemma_close_run(p: Seq<u16>, best: Option<(int, int)>, start: int, i: int)
    requires
        p.len() == 8,
        0 <= start <= i <= 8,
        best_so_far(p, best, start),
        forall|k: int| start <= k < i ==> p[k] == 0,
        start == 0 || p[start - 1] != 0,
        i == 8 || p[i] != 0,
    ensures
        best_so_far(p, closed(best, start, i), i),
        i < 8 ==> best_so_far(p, closed(best, start, i), i + 1),
{
    let nb = closed(best, start, i);
    assert forall|s2: int, e2: int| #[trigger]
        is_zero_run(p, s2, e2) && e2 > start && e2 <= i + 1 && e2 <= 8 implies s2 >= start && e2
        <= i by {
        if s2 < start {
            assert(p[start - 1] == 0);
        }
        if e2 > i {
            assert(p[i] == 0);
        }
    }
    match best {
        None => {
            if start < i {
                assert forall|s2: int, e2: int| #[trigger]
                    is_zero_run(p, s2, e2) && e2 <= i + 1 && e2 <= 8 implies e2 - s2 <= i
                    - start by {
                    if e2 <= start {
                        assert(p[s2] == 0);
                    } else {
                        if s2 < start {
                            assert(p[start - 1] == 0);
                        }
                        if e2 > i {
                            assert(p[i] == 0);
                        }
                    }
                }
                assert forall|s2: int| 0 <= s2 < start implies !#[trigger] is_zero_run(
                    p,
                    s2,
                    s2 + (i - start),
                ) by {
                    if is_zero_run(p, s2, s2 + (i - start)) {
                        assert(p[s2] == 0);
                    }
                }
            } else {
                assert forall|k: int| 0 <= k < i implies p[k] != 0 by {}
                if i < 8 {
                    assert forall|k: int| 0 <= k < i + 1 implies p[k] != 0 by {}
                }
            }
        },
        Some((s, e)) => {
            if start < i && i - start > e - s {
                assert forall|s2: int| 0 <= s2 < start implies !#[trigger] is_zero_run(
                    p,
                    s2,
                    s2 + (i - start),
                ) by {
                    if is_zero_run(p, s2, s2 + (i - start)) {
                        if s2 + (i - start) > start {
                            assert(p[start - 1] == 0);
                        } else {
                            assert(is_zero_run(p, s2, s2 + (i - start)) && s2 + (i - start)
                                <= start);
                        }
                    }
                }
            }
        },
    }
}

/// The run of zero groups that serialization compresses, as start and end.
fn longest_zero_sequence(pieces: &[u16; 8]) -> (r: Option<(usize, usize)>)
    ensures
        r matches Some((s, e)) ==> is_compression(pieces@, s as int, e as int),
        r is None ==> forall|k: int| 0 <= k < 8 ==> pieces@[k] != 0,
{
    let mut best: Option<(usize, usize)> = None;
    let mut start: usize = 0;
    let mut i: usize = 0;
    while i < 8
        invariant
            start <= i <= 8,
            pieces@.len() == 8,
            forall|k: int| start <= k < i ==> pieces@[k] == 0,
            start == 0 || pieces@[start - 1] != 0,
            best_so_far(pieces@, int_pair(best), start as int),
        decreases 8 - i,
    {
        if pieces[i] != 0 {
            proof {
                lemma_close_run(pieces@, int_pair(best), start as int, i as int);
            }
            best = close_run(best, start, i);
            start = i + 1;
        }
        i += 1;
    }
    proof {
        lemma_close_run(pieces@, int_pair(best), start as int, 8);
    }
    best = close_run(best, start, 8);
    best
}

pub open spec fn int_pair(o: Option<(usize, usize)>) -> Option<(int, int)> {
    match o {
        Some((s, e)) => Some((s as int, e as int)),
        None => None,
    }
}

fn close_run(best: Option<(usize, usize)>, start: usize, i: usize) -> (r: Option<(usize, usize)>)
    requires
        best matches Some((s, e)) ==> s <= e,
        start <= i,
    ensures
        int_pair(r) == closed(int_pair(best), start as int, i as int),
        r matches Some((s, e)) ==> s <= e,
{
    let better = match best {
        None => true,
        Some((s, e)) => i - start > e - s,
    };
    if start < i && better {
        Some((start, i))
    } else {
        best
    }
}

proof fn lemma_compression_unique(p: Seq<u16>, s1: int, e1: int, s2: int, e2: int)
    requires
        is_compression(p, s1, e1),
        is_compression(p, s2, e2),
    ensures
        s1 == s2 && e1 == e2,
{
    assert(e2 - s2 <= e1 - s1);
    assert(e1 - s1 <= e2 - s2);
    if s1 < s2 {
        assert(!is_zero_run(p, s1, s1 + (e2 - s2)));
    }
    if s2 < s1 {
        assert(!is_zero_run(p, s2, s2 + (e1 - s1)));
    }
}

fn push_hex(out: &mut String, v: u16)
    ensures
        final(out)@ == old(out)@ + hex_lower(v as nat),
    decreases v,
{
    if v >= 16 {
        push_hex(out, v / 16);
    }
    let d = v % 16;
    let c = if d < 10 {
        ((d as u8) + 0x30) as char
    } else {
        ((d as u8) - 10 + 0x61) as char
    };
    push_char(out, c);
    proof {
        assert(final(out)@ =~= old(out)@ + hex_lower(v as nat));
    }
}

fn push_joined(out: &mut String, p: &[u16; 8], lo: usize, hi: usize)
    requires
        lo <= hi <= 8,
    ensures
        final(out)@ == old(out)@ + joined(p@, lo as int, hi as int),
{
    let mut k: usize = lo;
    while k < hi
        invariant
            lo <= k <= hi <= 8,
            out@ == old(out)@ + joined(p@, lo as int, k as int),
        decreases hi - k,
    {
        if k > lo {
            push_char(out, ':');
        }
        push_hex(out, p[k]);
        k += 1;
        proof {
            assert(out@ =~= old(out)@ + joined(p@, lo as int, k as int));
        }
    }
}

impl IPv6Address {
    /// The canonical text of the address.
    pub fn serialize(&self) -> (r: String)
        ensures
            r@ == ipv6_text(self.pieces@),
    {
        let mut output = String::new();
        let run = longest_zero_sequence(&self.pieces);
        match run {
            None => {
                push_joined(&mut output, &self.pieces, 0, 8);
                proof {
                    if exists|s: int, e: int| is_compression(self.pieces@, s, e) {
                        let (s, e) = choose|s: int, e: int| is_compression(self.pieces@, s, e);
                        assert(self.pieces@[s] == 0);
                    }
                    assert(output@ =~= ipv6_text(self.pieces@));
                }
            },
            Some((s, e)) => {
                push_joined(&mut output, &self.pieces, 0, s);
                push_char(&mut output, ':');
                push_char(&mut output, ':');
                push_joined(&mut output, &self.pieces, e, 8);
                proof {
                    let (s2, e2) = choose|s2: int, e2: int| is_compression(self.pieces@, s2, e2);
                    lemma_compression_unique(self.pieces@, s as int, e as int, s2, e2);
                    assert(output@ =~= ipv6_text(self.pieces@));
                }
            },
        }
        output
    }

    /// Parses the text of an IPv6 address, without brackets.
    pub fn parse(input: &str) -> (r: Option<IPv6Address>)
        ensures
            match ipv6_parsed(input.spec_bytes()) {
                Some(p) => r matches Some(a) && a.pieces@ == p,
                None => r is None,
            },
    {
        parse_bytes(input.as_bytes())
    }
}

pub(crate) fn parse_bytes(b: &[u8]) -> (r: Option<IPv6Address>)
    ensures
        match ipv6_parsed(b@) {
            Some(p) => r matches Some(a) && a.pieces@ == p,
            None => r is None,
        },
{
    let len = b.len();
    let mut pieces: Vec<u16> = vec![0u16, 0u16, 0u16, 0u16, 0u16, 0u16, 0u16, 0u16];
    let mut pp: usize = 0;
    let mut cp: Option<usize> = None;
    let mut i: usize = 0;
    if len > 0 && b[0] == 0x3A {
        if len < 2 || b[1] != 0x3A {
            return None;
        }
        i = 2;
        pp = 1;
        cp = Some(1);
    }
    let ghost start = (i as int, pp as int, int_opt(cp));
    assert(pieces@ =~= zeros8());
    assert(ipv6_parsed(b@) == completed(ipv6_groups(b@, start.0, start.1, start.2, zeros8())));
    while i < len
        invariant
            len == b@.len(),
            i <= len,
            pp <= 8,
            pieces@.len() == 8,
            cp matches Some(c) ==> c <= pp,
            ipv6_parsed(b@) == completed(ipv6_groups(b@, start.0, start.1, start.2, zeros8())),
            ipv6_groups(b@, start.0, start.1, start.2, zeros8()) == ipv6_groups(
                b@,
                i as int,
                pp as int,
                int_opt(cp),
                pieces@,
            ),
        decreases len - i,
    {
        if pp == 8 {
            assert(ipv6_groups(b@, i as int, pp as int, int_opt(cp), pieces@) is None);
            return None;
        }
        if b[i] == 0x3A {
            if cp.is_some() {
                return None;
            }
            i += 1;
            pp += 1;
            cp = Some(pp);
            continue;
        }
        let (value, j) = read_hex(b, i);
        if j < len && b[j] == 0x2E {
            let ghost g = ipv6_groups(b@, i as int, pp as int, int_opt(cp), pieces@);
            if j == i || pp > 6 {
                assert(g is None);
                return None;
            }
            match read_ipv4(b, i) {
                Some((g1, g2)) => {
                    pieces.set(pp, g1);
                    pieces.set(pp + 1, g2);
                    pp += 2;
                    assert(g == Some((pieces@, pp as int, int_opt(cp))));
                    return finish(&pieces, pp, cp);
                },
                None => {
                    assert(g is None);
                    return None;
                },
            }
        }
        if j < len && b[j] == 0x3A {
            if j + 1 == len {
                return None;
            }
            pieces.set(pp, value);
            pp += 1;
            i = j + 1;
        } else if j < len {
            return None;
        } else {
            pieces.set(pp, value);
            pp += 1;
            i = j;
            assert(ipv6_groups(b@, i as int, pp as int, int_opt(cp), pieces@) == Some(
                (pieces@, pp as int, int_opt(cp)),
            ));
        }
    }
    finish(&pieces, pp, cp)
}

fn finish(pieces: &Vec<u16>, pp: usize, cp: Option<usize>) -> (r: Option<IPv6Address>)
    requires
        pieces@.len() == 8,
        pp <= 8,
        cp matches Some(c) ==> c <= pp,
    ensures
        match completed(Some((pieces@, pp as int, int_opt(cp)))) {
            Some(p) => r matches Some(a) && a.pieces@ == p,
            None => r is None,
        },
{
    match cp {
        Some(c) => Some(IPv6Address { pieces: expand_pieces(pieces, pp, c) }),
        None => {
            if pp != 8 {
                return None;
            }
            let a = IPv6Address {
                pieces: [
                    pieces[0],
                    pieces[1],
                    pieces[2],
                    pieces[3],
                    pieces[4],
                    pieces[5],
                    pieces[6],
                    pieces[7],
                ],
            };
            assert(a.pieces@ =~= pieces@);
            Some(a)
        },
    }
}

/// The bytes of `b` from `pos` on are the ASCII characters `t`.
pub open spec fn spells(b: Seq<u8>, pos: int, t: Seq<char>) -> bool {
    &&& 0 <= pos
    &&& pos + t.len() <= b.len()
    &&& forall|x: int| 0 <= x < t.len() ==> b[pos + x] == #[trigger] t[x] as u8
}

/// `q` with the groups `k` up to `hi` of `p` written from index `pp` on.
pub open spec fn fill(q: Seq<u16>, pp: int, p: Seq<u16>, k: int, hi: int) -> Seq<u16> {
    Seq::new(8, |x: int| if pp <= x < pp + (hi - k) { p[k + x - pp] } else { q[x] })
}

proof fn lemma_spells_split(b: Seq<u8>, pos: int, t1: Seq<char>, t2: Seq<char>)
    requires
        spells(b, pos, t1 + t2),
    ensures
        spells(b, pos, t1),
        spells(b, pos + t1.len(), t2),
{
    assert forall|x: int| 0 <= x < t1.len() implies b[pos + x] == #[trigger] t1[x] as u8 by {
        assert((t1 + t2)[x] == t1[x]);
    }
    assert forall|x: int| 0 <= x < t2.len() implies b[pos + t1.len() + x] == #[trigger] t2[x] as u8 by {
        assert((t1 + t2)[t1.len() + x] == t2[x]);
    }
}

proof fn lemma_hex_len(v: nat, k: nat)
    requires
        k >= 1,
        v < pow16(k),
    ensures
        1 <= hex_lower(v).len() <= k,
    decreases v,
{
    if v >= 16 {
        if k == 1 {
            assert(pow16(1) == 16) by {
                reveal_with_fuel(pow16, 2);
            }
        }
        let k1 = (k - 1) as nat;
        assert(pow16(k) == 16 * pow16(k1));
        assert(v / 16 < pow16(k1)) by (nonlinear_arith)
            requires
                v < 16 * pow16(k1),
        ;
        lemma_hex_len(v / 16, k1);
    }
}

proof fn lemma_hex_read(b: Seq<u8>, pos: int, v: nat)
    requires
        spells(b, pos, hex_lower(v)),
    ensures
        hex_run_value(b, pos, hex_lower(v).len()) == v,
        forall|x: int| 0 <= x < hex_lower(v).len() ==> hex_value(#[trigger] b[pos + x]) is Some,
        hex_value(b[pos]) is Some,
        b[pos] != 0x3A,
    decreases v,
{
    let t = hex_lower(v);
    if v < 16 {
        assert(t[0] == hex_digit_lower(v));
        assert(b[pos + 0] == t[0] as u8);
        assert(hex_run_value(b, pos, 1) == hex_run_value(b, pos, 0) * 16 + hex_value(b[pos])->0);
    } else {
        let t1 = hex_lower(v / 16);
        assert(t == t1 + seq![hex_digit_lower(v % 16)]);
        lemma_spells_split(b, pos, t1, seq![hex_digit_lower(v % 16)]);
        lemma_hex_read(b, pos, v / 16);
        let n = t1.len();
        assert(b[pos + n] == t[n as int] as u8);
        assert(t[n as int] == hex_digit_lower(v % 16));
        assert(hex_run_value(b, pos, n + 1) == hex_run_value(b, pos, n) * 16 + hex_value(
            b[pos + n],
        )->0);
        assert((v / 16) * 16 + v % 16 == v) by (nonlinear_arith);
        assert forall|x: int| 0 <= x < t.len() implies hex_value(#[trigger] b[pos + x]) is Some by {
            if x == n {
            } else {
                assert(hex_value(b[pos + x]) is Some);
            }
        }
    }
}

proof fn lemma_hex_run_len(b: Seq<u8>, pos: int, n: nat, m: nat)
    requires
        m <= n,
        0 <= pos,
        pos + m <= b.len(),
        forall|x: int| 0 <= x < m ==> hex_value(#[trigger] b[pos + x]) is Some,
        m == n || pos + m == b.len() || hex_value(b[pos + m]) is None,
    ensures
        hex_run_len(b, pos, n) == m,
    decreases m,
{
    if m > 0 {
        assert(hex_value(b[pos + 0]) is Some);
        assert forall|x: int| 0 <= x < m - 1 implies hex_value(#[trigger] b[(pos + 1) + x]) is Some by {
            assert(hex_value(b[pos + (x + 1)]) is Some);
        }
        lemma_hex_run_len(b, pos + 1, (n - 1) as nat, (m - 1) as nat);
    }
}

proof fn lemma_joined_front(p: Seq<u16>, k: int, hi: int)
    requires
        k < hi,
    ensures
        joined(p, k, hi) == hex_lower(p[k] as nat) + if k + 1 < hi {
            seq![':'] + joined(p, k + 1, hi)
        } else {
            Seq::empty()
        },
    decreases hi - k,
{
    if k + 1 < hi {
        lemma_joined_front(p, k, hi - 1);
        if k + 2 < hi {
            assert(joined(p, k + 1, hi) == joined(p, k + 1, hi - 1) + seq![':'] + hex_lower(
                p[hi - 1] as nat,
            ));
        }
        assert(joined(p, k, hi) =~= hex_lower(p[k] as nat) + (seq![':'] + joined(p, k + 1, hi)));
    } else {
        assert(joined(p, k, hi) =~= hex_lower(p[k] as nat) + Seq::<char>::empty());
    }
}

proof fn lemma_hex_lower_ascii(v: nat)
    ensures
        vstd::utf8::is_ascii_chars(hex_lower(v)),
    decreases v,
{
    if v >= 16 {
        lemma_hex_lower_ascii(v / 16);
        assert(vstd::utf8::is_ascii_chars(hex_lower(v)));
    }
}

proof fn lemma_joined_ascii(p: Seq<u16>, lo: int, hi: int)
    ensures
        vstd::utf8::is_ascii_chars(joined(p, lo, hi)),
    decreases hi - lo,
{
    if hi == lo + 1 {
        lemma_hex_lower_ascii(p[lo] as nat);
    } else if hi > lo + 1 {
        lemma_joined_ascii(p, lo, hi - 1);
        lemma_hex_lower_ascii(p[hi - 1] as nat);
        let t = joined(p, lo, hi);
        assert forall|i: int| 0 <= i < t.len() implies '\0' <= #[trigger] t[i] <= '\u{7f}' by {
            let a = joined(p, lo, hi - 1);
            if i < a.len() {
                assert(t[i] == a[i]);
            } else if i > a.len() {
                assert(t[i] == hex_lower(p[hi - 1] as nat)[i - a.len() - 1]);
            }
        }
    }
}

proof fn lemma_groups(
    b: Seq<u8>,
    p: Seq<u16>,
    k: int,
    hi: int,
    pos: int,
    pp: int,
    cp: Option<int>,
    q: Seq<u16>,
)
    requires
        p.len() == 8,
        q.len() == 8,
        0 <= k < hi <= 8,
        0 <= pp,
        pp + (hi - k) <= 8,
        spells(b, pos, joined(p, k, hi)),
        pos + joined(p, k, hi).len() == b.len() || (b[pos + joined(p, k, hi).len()] == 0x3A
            && pos + joined(p, k, hi).len() + 1 < b.len()),
    ensures
        pos + joined(p, k, hi).len() == b.len() ==> ipv6_groups(b, pos, pp, cp, q) == Some(
            (fill(q, pp, p, k, hi), pp + (hi - k), cp),
        ),
        pos + joined(p, k, hi).len() < b.len() ==> ipv6_groups(b, pos, pp, cp, q) == ipv6_groups(
            b,
            pos + joined(p, k, hi).len() + 1,
            pp + (hi - k),
            cp,
            fill(q, pp, p, k, hi),
        ),
    decreases hi - k,
{
    let h = hex_lower(p[k] as nat);
    let rest: Seq<char> = if k + 1 < hi {
        seq![':'] + joined(p, k + 1, hi)
    } else {
        Seq::empty()
    };
    lemma_joined_front(p, k, hi);
    lemma_spells_split(b, pos, h, rest);
    lemma_hex_read(b, pos, p[k] as nat);
    assert(pow16(4) == 65536) by {
        reveal_with_fuel(pow16, 5);
    }
    lemma_hex_len(p[k] as nat, 4);
    let m = h.len();
    let j = pos + m;
    if k + 1 < hi {
        lemma_spells_split(b, j, seq![':'], joined(p, k + 1, hi));
        assert(b[j + 0] == seq![':'][0] as u8);
    }
    lemma_hex_run_len(b, pos, 4, m);
    let v = hex_run_value(b, pos, m) as u16;
    assert(v == p[k]);
    let q1 = q.update(pp, v);
    if k + 1 < hi {
        lemma_groups(b, p, k + 1, hi, j + 1, pp + 1, cp, q1);
        assert(fill(q1, pp + 1, p, k + 1, hi) =~= fill(q, pp, p, k, hi));
        assert(joined(p, k, hi).len() == m + 1 + joined(p, k + 1, hi).len());
    } else {
        assert(q1 =~= fill(q, pp, p, k, hi));
        assert(joined(p, k, hi) =~= h);
    }
}

proof fn lemma_plain_bytes(p: Seq<u16>)
    ensures
        spells(vstd::utf8::encode_utf8(joined(p, 0, 8)), 0, joined(p, 0, 8)),
        vstd::utf8::encode_utf8(joined(p, 0, 8)).len() == joined(p, 0, 8).len(),
{
    let t = joined(p, 0, 8);
    lemma_joined_ascii(p, 0, 8);
    vstd::utf8::is_ascii_chars_encode_utf8(t);
}

#[verifier::rlimit(100)]
proof fn lemma_round_trip_plain(p: Seq<u16>)
    requires
        p.len() == 8,
    ensures
        ipv6_parsed(vstd::utf8::encode_utf8(joined(p, 0, 8))) == Some(p),
{
    let t = joined(p, 0, 8);
    let b = vstd::utf8::encode_utf8(t);
    lemma_plain_bytes(p);
    lemma_joined_front(p, 0, 8);
    lemma_spells_split(b, 0, hex_lower(p[0] as nat), seq![':'] + joined(p, 1, 8));
    lemma_hex_read(b, 0, p[0] as nat);
    assert(ipv6_parsed(b) == completed(ipv6_groups(b, 0, 0, None, zeros8())));
    lemma_groups(b, p, 0, 8, 0, 0, None, zeros8());
    assert(fill(zeros8(), 0, p, 0, 8) =~= p);
}

proof fn lemma_compressed_ascii(p: Seq<u16>, s: int, e: int)
    ensures
        vstd::utf8::is_ascii_chars(joined(p, 0, s) + seq![':', ':'] + joined(p, e, 8)),
{
    let left = joined(p, 0, s);
    let right = joined(p, e, 8);
    let t = left + seq![':', ':'] + right;
    lemma_joined_ascii(p, 0, s);
    lemma_joined_ascii(p, e, 8);
    assert forall|i: int| 0 <= i < t.len() implies '\0' <= #[trigger] t[i] <= '\u{7f}' by {
        if i < left.len() {
            assert(t[i] == left[i]);
        } else if i >= left.len() + 2 {
            assert(t[i] == right[i - left.len() - 2]);
        }
    }
}

proof fn lemma_compressed_bytes(p: Seq<u16>, s: int, e: int)
    ensures
        ({
            let left = joined(p, 0, s);
            let right = joined(p, e, 8);
            let b = vstd::utf8::encode_utf8(left + seq![':', ':'] + right);
            &&& b.len() == left.len() + 2 + right.len()
            &&& spells(b, 0, left)
            &&& spells(b, left.len() as int + 2, right)
            &&& b[left.len() as int] == 0x3A
            &&& b[left.len() as int + 1] == 0x3A
        }),
{
    let colons: Seq<char> = seq![':', ':'];
    let left = joined(p, 0, s);
    let right = joined(p, e, 8);
    let t = left + colons + right;
    let b = vstd::utf8::encode_utf8(t);
    lemma_compressed_ascii(p, s, e);
    vstd::utf8::is_ascii_chars_encode_utf8(t);
    assert(spells(b, 0, t));
    lemma_spells_split(b, 0, left + colons, right);
    lemma_spells_split(b, 0, left, colons);
    let l0 = left.len() as int;
    assert(b[l0 + 0] == colons[0] as u8);
    assert(b[l0 + 1] == colons[1] as u8);
}

#[verifier::rlimit(100)]
proof fn lemma_round_trip_leading(p: Seq<u16>, e: int)
    requires
        p.len() == 8,
        is_zero_run(p, 0, e),
    ensures
        ipv6_parsed(vstd::utf8::encode_utf8(joined(p, 0, 0) + seq![':', ':'] + joined(p, e, 8)))
            == Some(p),
{
    let b = vstd::utf8::encode_utf8(joined(p, 0, 0) + seq![':', ':'] + joined(p, e, 8));
    lemma_compressed_bytes(p, 0, e);
    assert(joined(p, 0, 0).len() == 0);
    assert(ipv6_parsed(b) == completed(ipv6_groups(b, 2, 1, Some(1), zeros8())));
    if e == 8 {
        assert(b.len() == 2);
        assert(expand(zeros8(), 1, 1) =~= p);
    } else {
        lemma_groups(b, p, e, 8, 2, 1, Some(1), zeros8());
        assert(expand(fill(zeros8(), 1, p, e, 8), 1 + (8 - e), 1) =~= p);
    }
}

#[verifier::rlimit(100)]
proof fn lemma_round_trip_inner(p: Seq<u16>, s: int, e: int)
    requires
        p.len() == 8,
        is_zero_run(p, s, e),
        s > 0,
    ensures
        ipv6_parsed(vstd::utf8::encode_utf8(joined(p, 0, s) + seq![':', ':'] + joined(p, e, 8)))
            == Some(p),
{
    let b = vstd::utf8::encode_utf8(joined(p, 0, s) + seq![':', ':'] + joined(p, e, 8));
    let l0 = joined(p, 0, s).len() as int;
    lemma_compressed_bytes(p, s, e);
    lemma_joined_front(p, 0, s);
    lemma_spells_split(
        b,
        0,
        hex_lower(p[0] as nat),
        if 1 < s {
            seq![':'] + joined(p, 1, s)
        } else {
            Seq::empty()
        },
    );
    lemma_hex_read(b, 0, p[0] as nat);
    assert(ipv6_parsed(b) == completed(ipv6_groups(b, 0, 0, None, zeros8())));
    lemma_groups(b, p, 0, s, 0, 0, None, zeros8());
    let q1 = fill(zeros8(), 0, p, 0, s);
    assert(ipv6_groups(b, l0 + 1, s, None, q1) == ipv6_groups(b, l0 + 2, s + 1, Some(s + 1), q1));
    if e == 8 {
        assert(expand(q1, s + 1, s + 1) =~= p);
    } else {
        lemma_groups(b, p, e, 8, l0 + 2, s + 1, Some(s + 1), q1);
        assert(expand(fill(q1, s + 1, p, e, 8), s + 1 + (8 - e), s + 1) =~= p);
    }
}

/// Serializing an address and parsing the text back gives the same groups.
pub proof fn ipv6_round_trip(a: IPv6Address)
    ensures
        ipv6_parsed(vstd::utf8::encode_utf8(ipv6_text(a.pieces@))) == Some(a.pieces@),
{
    let p = a.pieces@;
    match compression(p) {
        None => lemma_round_trip_plain(p),
        Some((s, e)) => {
            assert(is_compression(p, s, e));
            if s == 0 {
                lemma_round_trip_leading(p, e);
            } else {
                lemma_round_trip_inner(p, s, e);
            }
        },
    }
}

} // verus!
