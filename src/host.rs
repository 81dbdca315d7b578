use vstd::prelude::*;
use vstd::string::StringSliceAdditionalSpecFns;
use crate::ipv6::{IPv6Address, ipv6_parsed, ipv6_text, parse_bytes};
use crate::percent::{EncodeSet, percent_decoded, percent_encoded, percent_decode, utf8_percent_encode};
use crate::text::{chars_of, decode_utf8_lossy, push_char, push_str, utf8_lossy};

verus! {

/// Why a host, and so a URL, was rejected.
#[derive(Clone, Copy, PartialEq, Eq, Structural, Debug)]
pub enum ParseError {
    EmptyHost,
    InvalidIPv6Address,
    UnsupportedIDNA,
}

pub type ParseResult<T> = Result<T, ParseError>;

/// A host: a sequence of domain labels, or an IPv6 address.
#[derive(Clone, PartialEq, Eq, Debug)]
pub enum Host {
    Domain(Vec<String>),
    IPv6(IPv6Address),
}

/// The texts of a sequence of strings.
pub open spec fn texts(v: Seq<String>) -> Seq<Seq<char>> {
    v.map_values(|s: String| s@)
}

/// The four characters that separate domain labels.
pub open spec fn is_domain_dot(c: char) -> bool {
    c == '.' || c == '\u{3002}' || c == '\u{FF0E}' || c == '\u{FF61}'
}

/// `s` cut at each domain dot; an empty text gives one empty label.
pub open spec fn split_dots(s: Seq<char>) -> Seq<Seq<char>>
    decreases s.len(),
{
    if s.len() == 0 {
        seq![Seq::empty()]
    } else {
        let p = split_dots(s.drop_last());
        if is_domain_dot(s.last()) {
            p.push(Seq::empty())
        } else {
            p.update(p.len() - 1, p.last().push(s.last()))
        }
    }
}

pub open spec fn all_ascii(ls: Seq<Seq<char>>) -> bool {
    forall|k: int| 0 <= k < ls.len() ==> vstd::utf8::is_ascii_chars(#[trigger] ls[k])
}

/// The text of a domain host: its bytes escaped under the simple set, then
/// percent-decoded, then read as UTF-8.
pub open spec fn domain_text(b: Seq<u8>) -> Seq<char> {
    utf8_lossy(percent_decoded(vstd::utf8::encode_utf8(percent_encoded(EncodeSet::SimpleEncodeSet, b))))
}

/// Labels joined with `.`.
pub open spec fn dot_joined(ls: Seq<Seq<char>>) -> Seq<char>
    decreases ls.len(),
{
    if ls.len() == 0 {
        Seq::empty()
    } else if ls.len() == 1 {
        ls[0]
    } else {
        dot_joined(ls.drop_last()) + seq!['.'] + ls.last()
    }
}

/// The text of a host.
pub open spec fn host_text(h: Host) -> Seq<char> {
    match h {
        Host::Domain(labels) => dot_joined(texts(labels@)),
        Host::IPv6(a) => seq!['['] + ipv6_text(a.pieces@) + seq![']'],
    }
}

/// Splits `s` at each domain dot.
fn split_labels(s: &str) -> (r: Vec<String>)
    ensures
        texts(r@) == split_dots(s@),
{
    let chars = chars_of(s);
    let mut labels: Vec<String> = Vec::new();
    let mut cur = String::new();
    let mut i: usize = 0;
    proof {
        assert(chars@.take(0) =~= Seq::<char>::empty());
        assert(texts(labels@) + seq![cur@] =~= split_dots(chars@.take(0)));
    }
    while i < chars.len()
        invariant
            i <= chars@.len(),
            chars@ == s@,
            texts(labels@) + seq![cur@] == split_dots(chars@.take(i as int)),
        decreases chars@.len() - i,
    {
        let c = chars[i];
        proof {
            assert(chars@.take(i + 1).drop_last() =~= chars@.take(i as int));
        }
        if c == '.' || c == '\u{3002}' || c == '\u{FF0E}' || c == '\u{FF61}' {
            let ghost old_labels = labels@;
            let ghost old_cur = cur@;
            labels.push(cur);
            cur = String::new();
            proof {
                assert(texts(labels@) =~= texts(old_labels) + seq![old_cur]);
                assert(texts(labels@) + seq![cur@] =~= split_dots(chars@.take(i + 1)));
            }
        } else {
            push_char(&mut cur, c);
            proof {
                assert(texts(labels@) + seq![cur@] =~= split_dots(chars@.take(i + 1)));
            }
        }
        i += 1;
    }
    let ghost old_labels = labels@;
    let ghost old_cur = cur@;
    labels.push(cur);
    proof {
        assert(chars@.take(i as int) =~= s@);
        assert(texts(labels@) =~= texts(old_labels) + seq![old_cur]);
    }
    labels
}

impl Host {
    /// Parses a host: a bracketed IPv6 address, or a domain whose labels must be ASCII.
    pub fn parse(input: &str) -> (r: ParseResult<Host>)
        ensures
            ({
                let b = input.spec_bytes();
                if b.len() == 0 {
                    r == Err::<Host, ParseError>(ParseError::EmptyHost)
                } else if b[0] == 0x5B {
                    if b.len() >= 2 && b.last() == 0x5D {
                        match ipv6_parsed(b.subrange(1, b.len() - 1)) {
                            Some(p) => r matches Ok(Host::IPv6(a)) && a.pieces@ == p,
                            None => r == Err::<Host, ParseError>(ParseError::InvalidIPv6Address),
                        }
                    } else {
                        r == Err::<Host, ParseError>(ParseError::InvalidIPv6Address)
                    }
                } else {
                    let labels = split_dots(domain_text(b));
                    if all_ascii(labels) {
                        r matches Ok(Host::Domain(v)) && texts(v@) == labels
                    } else {
                        r == Err::<Host, ParseError>(ParseError::UnsupportedIDNA)
                    }
                }
            }),
    {
        let bytes = input.as_bytes();
        let len = bytes.len();
        if len == 0 {
            return Err(ParseError::EmptyHost);
        }
        if bytes[0] == 0x5B {
            if len >= 2 && bytes[len - 1] == 0x5D {
                let mut inner: Vec<u8> = Vec::new();
                let mut k: usize = 1;
                while k < len - 1
                    invariant
                        1 <= k <= len - 1,
                        len == bytes@.len(),
                        inner@ == bytes@.subrange(1, k as int),
                    decreases len - 1 - k,
                {
                    inner.push(bytes[k]);
                    k += 1;
                    proof {
                        assert(inner@ =~= bytes@.subrange(1, k as int));
                    }
                }
                match parse_bytes(inner.as_slice()) {
                    Some(a) => Ok(Host::IPv6(a)),
                    None => Err(ParseError::InvalidIPv6Address),
                }
            } else {
                Err(ParseError::InvalidIPv6Address)
            }
        } else {
            let mut encoded = String::new();
            utf8_percent_encode(input, EncodeSet::SimpleEncodeSet, &mut encoded);
            let decoded = percent_decode(encoded.as_str().as_bytes());
            let text = decode_utf8_lossy(decoded.as_slice());
            let labels = split_labels(text.as_str());
            proof {
                assert(encoded@ =~= percent_encoded(EncodeSet::SimpleEncodeSet, bytes@));
            }
            let mut k: usize = 0;
            while k < labels.len()
                invariant
                    k <= labels@.len(),
                    bytes@ == input.spec_bytes(),
                    bytes@.len() > 0 && bytes@[0] != 0x5B,
                    texts(labels@) == split_dots(domain_text(bytes@)),
                    forall|m: int|
                        0 <= m < k ==> vstd::utf8::is_ascii_chars(#[trigger] texts(labels@)[m]),
                decreases labels@.len() - k,
            {
                if !labels[k].as_str().is_ascii() {
                    proof {
                        assert(!vstd::utf8::is_ascii_chars(texts(labels@)[k as int]));
                    }
                    return Err(ParseError::UnsupportedIDNA);
                }
                k += 1;
            }
            Ok(Host::Domain(labels))
        }
    }

    pub fn serialize(&self) -> (r: String)
        ensures
            r@ == host_text(*self),
    {
        match self {
            Host::Domain(labels) => {
                let mut out = String::new();
                let mut k: usize = 0;
                while k < labels.len()
                    invariant
                        k <= labels@.len(),
                        out@ == dot_joined(texts(labels@).take(k as int)),
                    decreases labels@.len() - k,
                {
                    proof {
                        assert(texts(labels@).take(k + 1).drop_last() =~= texts(labels@).take(
                            k as int,
                        ));
                    }
                    if k > 0 {
                        push_char(&mut out, '.');
                    }
                    push_str(&mut out, labels[k].as_str());
                    k += 1;
                    proof {
                        assert(k == 1 ==> out@ =~= texts(labels@).take(k as int)[0]);
                        assert(out@ =~= dot_joined(texts(labels@).take(k as int)));
                    }
                }
                proof {
                    assert(texts(labels@).take(k as int) =~= texts(labels@));
                }
                out
            },
            Host::IPv6(address) => {
                let mut out = String::new();
                push_char(&mut out, '[');
                let text = address.serialize();
                push_str(&mut out, text.as_str());
                push_char(&mut out, ']');
                proof {
                    assert(out@ =~= host_text(*self));
                }
                out
            },
        }
    }
}

} // verus!
