use vstd::prelude::*;
use crate::text::push_char;
use vstd::string::StringSliceAdditionalSpecFns;

verus! {

/// The value of an ASCII hexadecimal digit, in either case.
pub open spec fn hex_value(b: u8) -> Option<u8> {
    if 0x30 <= b <= 0x39 {
        Some((b - 0x30) as u8)
    } else if 0x41 <= b <= 0x46 {
        Some((b - 0x41 + 10) as u8)
    } else if 0x61 <= b <= 0x66 {
        Some((b - 0x61 + 10) as u8)
    } else {
        None
    }
}

/// The uppercase ASCII hexadecimal digit of a value below 16.
pub open spec fn hex_upper(v: u8) -> char
    recommends
        v < 16,
{
    if v < 10 {
        ((v + 0x30) as u8) as char
    } else {
        ((v - 10 + 0x41) as u8) as char
    }
}

pub fn from_hex(byte: u8) -> (r: Option<u8>)
    ensures
        r == hex_value(byte),
        r matches Some(d) ==> d < 16,
{
    if 0x30 <= byte && byte <= 0x39 {
        Some(byte - 0x30)
    } else if 0x41 <= byte && byte <= 0x46 {
        Some(byte + 10 - 0x41)
    } else if 0x61 <= byte && byte <= 0x66 {
        Some(byte + 10 - 0x61)
    } else {
        None
    }
}

pub fn to_hex_upper(value: u8) -> (r: char)
    requires
        value < 16,
    ensures
        r == hex_upper(value),
{
    if value < 10 {
        (value + 0x30) as char
    } else {
        (value - 10 + 0x41) as char
    }
}

/// Which characters, beyond controls and non-ASCII bytes, a URL component escapes.
/// Each set escapes everything the previous one does.
#[derive(Clone, Copy, PartialEq, Eq, Structural, Debug)]
pub enum EncodeSet {
    SimpleEncodeSet,
    DefaultEncodeSet,
    UserInfoEncodeSet,
    PasswordEncodeSet,
    UsernameEncodeSet,
}

/// Position of an encode set in the nesting order, from the smallest.
pub open spec fn rank(s: EncodeSet) -> int {
    match s {
        EncodeSet::SimpleEncodeSet => 0,
        EncodeSet::DefaultEncodeSet => 1,
        EncodeSet::UserInfoEncodeSet => 2,
        EncodeSet::PasswordEncodeSet => 3,
        EncodeSet::UsernameEncodeSet => 4,
    }
}

/// Whether `b` is written as `%XX` under `set`.
pub open spec fn escapes(set: EncodeSet, b: u8) -> bool {
    b < 0x20 || b > 0x7E
    || (rank(set) >= 1 && (b == 0x20 || b == 0x22 || b == 0x23 || b == 0x3C || b == 0x3E
        || b == 0x3F || b == 0x60))
    || (rank(set) >= 2 && b == 0x40)
    || (rank(set) >= 3 && (b == 0x2F || b == 0x5C))
    || (rank(set) >= 4 && b == 0x3A)
}

/// `%` followed by the two uppercase hexadecimal digits of `b`.
pub open spec fn escape_of(b: u8) -> Seq<char> {
    seq!['%', hex_upper(b / 16), hex_upper(b % 16)]
}

/// The text one byte becomes under `set`.
pub open spec fn encode_byte(set: EncodeSet, b: u8) -> Seq<char> {
    if escapes(set, b) {
        escape_of(b)
    } else {
        seq![b as char]
    }
}

/// The text a byte sequence becomes under `set`, byte by byte.
pub open spec fn percent_encoded(set: EncodeSet, bytes: Seq<u8>) -> Seq<char>
    decreases bytes.len(),
{
    if bytes.len() == 0 {
        Seq::empty()
    } else {
        percent_encoded(set, bytes.drop_last()) + encode_byte(set, bytes.last())
    }
}

/// Percent-decoding: `%` and two hexadecimal digits give one byte, any other
/// byte stands for itself.
pub open spec fn percent_decoded(b: Seq<u8>) -> Seq<u8>
    decreases b.len(),
{
    if b.len() == 0 {
        Seq::empty()
    } else if b[0] == 0x25 && b.len() >= 3 && hex_value(b[1]) is Some && hex_value(b[2]) is Some {
        seq![(hex_value(b[1])->0 * 16 + hex_value(b[2])->0) as u8] + percent_decoded(b.skip(3))
    } else {
        seq![b[0]] + percent_decoded(b.skip(1))
    }
}

pub fn percent_encode_byte(byte: u8, output: &mut String)
    ensures
        final(output)@ == old(output)@ + escape_of(byte),
{
    push_char(output, '%');
    push_char(output, to_hex_upper(byte / 16));
    push_char(output, to_hex_upper(byte % 16));
    proof {
        assert(final(output)@ =~= old(output)@ + escape_of(byte));
    }
}

/// Whether `byte` is escaped under `encode_set`.
pub fn is_escaped(encode_set: EncodeSet, byte: u8) -> (r: bool)
    ensures
        r == escapes(encode_set, byte),
{
    if byte < 0x20 || byte > 0x7E {
        return true;
    }
    match byte {
        0x20 | 0x22 | 0x23 | 0x3C | 0x3E | 0x3F | 0x60 => !matches!(
            encode_set,
            EncodeSet::SimpleEncodeSet
        ),
        0x40 => matches!(
            encode_set,
            EncodeSet::UserInfoEncodeSet | EncodeSet::PasswordEncodeSet | EncodeSet::UsernameEncodeSet
        ),
        0x2F | 0x5C => matches!(encode_set, EncodeSet::PasswordEncodeSet | EncodeSet::UsernameEncodeSet),
        0x3A => matches!(encode_set, EncodeSet::UsernameEncodeSet),
        _ => false,
    }
}

/// Appends the UTF-8 bytes of `input` to `output`, escaping those that
/// `encode_set` asks for.
pub fn utf8_percent_encode(input: &str, encode_set: EncodeSet, output: &mut String)
    ensures
        final(output)@ == old(output)@ + percent_encoded(encode_set, input.spec_bytes()),
{
    let bytes = input.as_bytes();
    let mut i: usize = 0;
    while i < bytes.len()
        invariant
            bytes@ == input.spec_bytes(),
            0 <= i <= bytes@.len(),
            output@ == old(output)@ + percent_encoded(encode_set, bytes@.take(i as int)),
        decreases bytes@.len() - i,
    {
        let byte = bytes[i];
        proof {
            assert(bytes@.take(i + 1).drop_last() =~= bytes@.take(i as int));
        }
        if is_escaped(encode_set, byte) {
            percent_encode_byte(byte, output);
        } else {
            push_char(output, byte as char);
        }
        i += 1;
        proof {
            assert(output@ =~= old(output)@ + percent_encoded(encode_set, bytes@.take(i as int)));
        }
    }
    proof {
        assert(bytes@.take(i as int) =~= bytes@);
    }
}

/// The bytes `[A-Za-z0-9*\-._]`, which no codec of this crate escapes.
pub open spec fn always_safe(b: u8) -> bool {
    (0x41 <= b <= 0x5A) || (0x61 <= b <= 0x7A) || (0x30 <= b <= 0x39) || b == 0x2A || b == 0x2D
        || b == 0x2E || b == 0x5F
}

/// The encode sets are nested: a byte escaped under a set is escaped under
/// every larger set.
pub proof fn encode_set_monotonic(s1: EncodeSet, s2: EncodeSet, b: u8)
    requires
        rank(s1) <= rank(s2),
        escapes(s1, b),
    ensures
        escapes(s2, b),
{
}

/// A byte of `[A-Za-z0-9*\-._]` is copied by every encode set, and decoding
/// what the encoder wrote gives the byte back.
pub proof fn safe_byte_round_trip(set: EncodeSet, b: u8)
    requires
        always_safe(b),
    ensures
        percent_encoded(set, seq![b]) == seq![b as char],
        percent_decoded(seq![b]) == seq![b],
{
    reveal_with_fuel(percent_encoded, 2);
    reveal_with_fuel(percent_decoded, 2);
    assert(seq![b].drop_last() =~= Seq::<u8>::empty());
    assert(seq![b].last() == b);
    assert(percent_encoded(set, seq![b]) =~= seq![b as char]);
    assert(seq![b].skip(1) =~= Seq::<u8>::empty());
    assert(percent_decoded(seq![b]) =~= seq![b]);
}

/// Decodes `%XX` escapes; a `%` that does not start one stays as it is.
pub fn percent_decode(input: &[u8]) -> (r: Vec<u8>)
    ensures
        r@ == percent_decoded(input@),
{
    let mut output: Vec<u8> = Vec::new();
    let mut i: usize = 0;
    proof {
        assert(input@.skip(0) =~= input@);
    }
    while i < input.len()
        invariant
            0 <= i <= input@.len(),
            output@ + percent_decoded(input@.skip(i as int)) == percent_decoded(input@),
        decreases input@.len() - i,
    {
        let c = input[i];
        let rest = Ghost(input@.skip(i as int));
        if c == 0x25 && input.len() - i > 2 {
            let h = from_hex(input[i + 1]);
            let l = from_hex(input[i + 2]);
            if let (Some(h), Some(l)) = (h, l) {
                output.push(h * 16 + l);
                proof {
                    assert(rest@.skip(3) =~= input@.skip(i + 3));
                    assert(output@ + percent_decoded(input@.skip(i + 3)) =~= percent_decoded(input@)) by {
                        assert(output@ =~= output@.drop_last() + seq![(h * 16 + l) as u8]);
                    }
                }
                i += 3;
                continue;
            }
        }
        output.push(c);
        proof {
            assert(rest@.skip(1) =~= input@.skip(i + 1));
            assert(output@ =~= output@.drop_last() + seq![c]);
            assert(output@ + percent_decoded(input@.skip(i + 1)) =~= percent_decoded(input@));
        }
        i += 1;
    }
    proof {
        assert(input@.skip(i as int) =~= Seq::<u8>::empty());
        assert(output@ =~= percent_decoded(input@));
    }
    output
}

} // verus!
