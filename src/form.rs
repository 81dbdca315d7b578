use vstd::prelude::*;
use vstd::string::StringSliceAdditionalSpecFns;
use crate::percent::{always_safe, escape_of, percent_decode, percent_decoded, percent_encode_byte};
use crate::text::{
    chars_of, decode_lossy_as, decode_utf8_lossy, decoded_as, encode_ncr_as, encoded_as,
    is_encoding_label, known_label, push_char, utf8_lossy,
};

verus! {

/// `s` cut at each `sep`; an empty text gives one empty piece.
pub open spec fn split_on(s: Seq<char>, sep: char) -> Seq<Seq<char>>
    decreases s.len(),
{
    if s.len() == 0 {
        seq![Seq::empty()]
    } else {
        let p = split_on(s.drop_last(), sep);
        if s.last() == sep {
            p.push(Seq::empty())
        } else {
            p.update(p.len() - 1, p.last().push(s.last()))
        }
    }
}

/// Index of the first `c` in `s`, or the length of `s` when there is none.
pub open spec fn first_index(s: Seq<char>, c: char) -> int
    decreases s.len(),
{
    if s.len() == 0 {
        0
    } else if s[0] == c {
        0
    } else {
        1 + first_index(s.skip(1), c)
    }
}

pub open spec fn plus_to_space(s: Seq<char>) -> Seq<char> {
    s.map_values(|c: char| if c == '+' { ' ' } else { c })
}

/// Name and value of one non-empty segment, before percent-decoding.
pub open spec fn pair_of(seg: Seq<char>, isindex: bool) -> (Seq<char>, Seq<char>) {
    let p = first_index(seg, '=');
    let nv: (Seq<char>, Seq<char>) = if p < seg.len() {
        (seg.take(p), seg.skip(p + 1))
    } else if isindex {
        (Seq::empty(), seg)
    } else {
        (seg, Seq::empty())
    };
    (plus_to_space(nv.0), plus_to_space(nv.1))
}

/// The pairs of the non-empty segments; `isindex` applies to the first segment only.
pub open spec fn raw_pairs(segs: Seq<Seq<char>>, isindex: bool) -> Seq<(Seq<char>, Seq<char>)>
    decreases segs.len(),
{
    if segs.len() == 0 {
        Seq::empty()
    } else {
        let prev = raw_pairs(segs.drop_last(), isindex);
        if segs.last().len() == 0 {
            prev
        } else {
            prev.push(pair_of(segs.last(), isindex && segs.len() == 1))
        }
    }
}

pub open spec fn charset_name() -> Seq<char> {
    seq!['_', 'c', 'h', 'a', 'r', 's', 'e', 't', '_']
}

/// The encoding in force after all pairs: the last `_charset_` pair whose value
/// is a known label, when `use_charset` is set; otherwise `init`.
pub open spec fn charset_after(
    pairs: Seq<(Seq<char>, Seq<char>)>,
    init: Option<Seq<char>>,
    use_charset: bool,
) -> Option<Seq<char>>
    decreases pairs.len(),
{
    if pairs.len() == 0 {
        init
    } else {
        let (n, v) = pairs.last();
        if use_charset && n == charset_name() && is_encoding_label(v) {
            Some(v)
        } else {
            charset_after(pairs.drop_last(), init, use_charset)
        }
    }
}

/// A name or value percent-decoded, then read in the encoding `enc` (UTF-8 when none).
pub open spec fn form_decoded(text: Seq<char>, enc: Option<Seq<char>>) -> Seq<char> {
    let b = percent_decoded(vstd::utf8::encode_utf8(text));
    match enc {
        None => utf8_lossy(b),
        Some(l) => decoded_as(l, b),
    }
}

pub open spec fn label_of(o: Option<&str>) -> Option<Seq<char>> {
    match o {
        Some(l) => if is_encoding_label(l@) {
            Some(l@)
        } else {
            None
        },
        None => None,
    }
}

pub open spec fn pair_texts(v: Seq<(String, String)>) -> Seq<(Seq<char>, Seq<char>)> {
    v.map_values(|p: (String, String)| (p.0@, p.1@))
}

/// The pairs that `input` encodes.
pub open spec fn form_parsed(
    input: Seq<char>,
    encoding_override: Option<&str>,
    use_charset: bool,
    isindex: bool,
) -> Seq<(Seq<char>, Seq<char>)> {
    let raw = raw_pairs(split_on(input, '&'), isindex);
    let enc = charset_after(raw, label_of(encoding_override), use_charset);
    raw.map_values(
        |p: (Seq<char>, Seq<char>)| (form_decoded(p.0, enc), form_decoded(p.1, enc)),
    )
}

/// The characters `lo` up to `hi` of `seg`, with `+` read as a space.
fn plus_text(seg: &Vec<char>, lo: usize, hi: usize) -> (r: String)
    requires
        lo <= hi <= seg@.len(),
    ensures
        r@ == plus_to_space(seg@.subrange(lo as int, hi as int)),
{
    let mut out = String::new();
    let mut k: usize = lo;
    while k < hi
        invariant
            lo <= k <= hi <= seg@.len(),
            out@ == plus_to_space(seg@.subrange(lo as int, k as int)),
        decreases hi - k,
    {
        let c = seg[k];
        push_char(&mut out, if c == '+' { ' ' } else { c });
        k += 1;
        proof {
            assert(out@ =~= plus_to_space(seg@.subrange(lo as int, k as int)));
        }
    }
    out
}

fn find_char(seg: &Vec<char>, c: char) -> (r: usize)
    ensures
        r as int == first_index(seg@, c),
        r <= seg@.len(),
{
    let mut j: usize = 0;
    proof {
        assert(seg@.skip(0) =~= seg@);
    }
    while j < seg.len()
        invariant
            j <= seg@.len(),
            first_index(seg@, c) == j + first_index(seg@.skip(j as int), c),
        decreases seg@.len() - j,
    {
        if seg[j] == c {
            return j;
        }
        proof {
            assert(seg@.skip(j as int).skip(1) =~= seg@.skip(j + 1));
        }
        j += 1;
    }
    j
}

fn make_pair(seg: &Vec<char>, isindex: bool) -> (r: (String, String))
    ensures
        (r.0@, r.1@) == pair_of(seg@, isindex),
{
    let len = seg.len();
    let p = find_char(seg, '=');
    if p < len {
        let n = plus_text(seg, 0, p);
        let v = plus_text(seg, p + 1, len);
        proof {
            assert(seg@.subrange(0, p as int) =~= seg@.take(p as int));
            assert(seg@.subrange(p + 1, len as int) =~= seg@.skip(p + 1));
        }
        (n, v)
    } else if isindex {
        let n = String::new();
        let v = plus_text(seg, 0, len);
        proof {
            assert(seg@.subrange(0, len as int) =~= seg@);
            assert(n@ =~= plus_to_space(Seq::empty()));
        }
        (n, v)
    } else {
        let n = plus_text(seg, 0, len);
        let v = String::new();
        proof {
            assert(seg@.subrange(0, len as int) =~= seg@);
            assert(v@ =~= plus_to_space(Seq::empty()));
        }
        (n, v)
    }
}

fn is_charset_name(s: &str) -> (r: bool)
    ensures
        r == (s@ == charset_name()),
{
    let c = chars_of(s);
    let r = c.len() == 9 && c[0] == '_' && c[1] == 'c' && c[2] == 'h' && c[3] == 'a' && c[4]
        == 'r' && c[5] == 's' && c[6] == 'e' && c[7] == 't' && c[8] == '_';
    proof {
        if r {
            assert(s@ =~= charset_name());
        }
    }
    r
}

/// The text read in the encoding labelled `enc`, or as UTF-8 when none.
fn decode_form_text(text: &String, enc: &Option<String>) -> (r: String)
    requires
        enc matches Some(l) ==> is_encoding_label(l@),
    ensures
        r@ == form_decoded(text@, match enc {
            Some(l) => Some(l@),
            None => None,
        }),
{
    let bytes = percent_decode(text.as_str().as_bytes());
    match enc {
        None => decode_utf8_lossy(bytes.as_slice()),
        Some(l) => decode_lossy_as(l.as_str(), bytes.as_slice()),
    }
}

pub open spec fn opt_text(o: Option<String>) -> Option<Seq<char>> {
    match o {
        Some(l) => Some(l@),
        None => None,
    }
}

/// Appends the pair of `seg` to `raw` when `seg` is not empty, and follows a
/// `_charset_` pair.
fn take_segment(
    raw: &mut Vec<(String, String)>,
    enc: &mut Option<String>,
    seg: &Vec<char>,
    first: bool,
    use_charset: bool,
)
    requires
        *old(enc) matches Some(l) ==> is_encoding_label(l@),
    ensures
        *final(enc) matches Some(l) ==> is_encoding_label(l@),
        pair_texts(final(raw)@) == if seg@.len() == 0 {
            pair_texts(old(raw)@)
        } else {
            pair_texts(old(raw)@).push(pair_of(seg@, first))
        },
        opt_text(*final(enc)) == if seg@.len() == 0 {
            opt_text(*old(enc))
        } else {
            let (n, v) = pair_of(seg@, first);
            if use_charset && n == charset_name() && is_encoding_label(v) {
                Some(v)
            } else {
                opt_text(*old(enc))
            }
        },
{
    if seg.len() == 0 {
        return ;
    }
    let (n, v) = make_pair(seg, first);
    if use_charset && is_charset_name(n.as_str()) && known_label(v.as_str()) {
        *enc = Some(v.clone());
    }
    let ghost before = raw@;
    raw.push((n, v));
    proof {
        assert(pair_texts(raw@) =~= pair_texts(before).push(pair_of(seg@, first)));
    }
}

proof fn lemma_next_segment(
    done: Seq<Seq<char>>,
    seg: Seq<char>,
    isindex: bool,
    init: Option<Seq<char>>,
    use_charset: bool,
)
    ensures
        raw_pairs(done.push(seg), isindex) == if seg.len() == 0 {
            raw_pairs(done, isindex)
        } else {
            raw_pairs(done, isindex).push(pair_of(seg, isindex && done.len() == 0))
        },
        charset_after(raw_pairs(done.push(seg), isindex), init, use_charset) == if seg.len()
            == 0 {
            charset_after(raw_pairs(done, isindex), init, use_charset)
        } else {
            let (n, v) = pair_of(seg, isindex && done.len() == 0);
            if use_charset && n == charset_name() && is_encoding_label(v) {
                Some(v)
            } else {
                charset_after(raw_pairs(done, isindex), init, use_charset)
            }
        },
{
    let d2 = done.push(seg);
    assert(d2.drop_last() =~= done);
    if seg.len() > 0 {
        let prev = raw_pairs(done, isindex);
        let x = pair_of(seg, isindex && done.len() == 0);
        assert(prev.push(x).drop_last() =~= prev);
    }
}

/// Parses `application/x-www-form-urlencoded` text into name and value pairs.
/// A `_charset_` pair with a known label, when `use_charset` is set, decides
/// the encoding of every pair, those before it included.
pub fn parse_form_urlencoded(
    input: &str,
    encoding_override: Option<&str>,
    use_charset: bool,
    isindex: bool,
) -> (r: Vec<(String, String)>)
    ensures
        pair_texts(r@) == form_parsed(input@, encoding_override, use_charset, isindex),
{
    let chars = chars_of(input);
    let mut enc: Option<String> = match encoding_override {
        Some(l) => if known_label(l) {
            Some(l.to_owned())
        } else {
            None
        },
        None => None,
    };
    let ghost init = opt_text(enc);
    let mut raw: Vec<(String, String)> = Vec::new();
    let mut cur: Vec<char> = Vec::new();
    let mut nseg: usize = 0;
    let ghost mut done: Seq<Seq<char>> = Seq::empty();
    let mut i: usize = 0;
    proof {
        assert(chars@.take(0) =~= Seq::<char>::empty());
        assert(done + seq![cur@] =~= split_on(chars@.take(0), '&'));
    }
    while i < chars.len()
        invariant
            i <= chars@.len(),
            chars@ == input@,
            nseg <= i,
            nseg == done.len(),
            init == label_of(encoding_override),
            enc matches Some(l) ==> is_encoding_label(l@),
            done + seq![cur@] == split_on(chars@.take(i as int), '&'),
            pair_texts(raw@) == raw_pairs(done, isindex),
            opt_text(enc) == charset_after(raw_pairs(done, isindex), init, use_charset),
        decreases chars@.len() - i,
    {
        let c = chars[i];
        proof {
            assert(chars@.take(i + 1).drop_last() =~= chars@.take(i as int));
        }
        if c == '&' {
            take_segment(&mut raw, &mut enc, &cur, isindex && nseg == 0, use_charset);
            proof {
                lemma_next_segment(done, cur@, isindex, init, use_charset);
                done = done.push(cur@);
            }
            nseg += 1;
            cur = Vec::new();
            proof {
                assert(done + seq![cur@] =~= split_on(chars@.take(i + 1), '&'));
            }
        } else {
            cur.push(c);
            proof {
                assert(done + seq![cur@] =~= split_on(chars@.take(i + 1), '&'));
            }
        }
        i += 1;
    }
    take_segment(&mut raw, &mut enc, &cur, isindex && nseg == 0, use_charset);
    proof {
        lemma_next_segment(done, cur@, isindex, init, use_charset);
        assert(done.push(cur@) =~= done + seq![cur@]);
        done = done.push(cur@);
        assert(chars@.take(i as int) =~= input@);
        assert(done == split_on(input@, '&'));
    }
    let ghost e = opt_text(enc);
    let mut out: Vec<(String, String)> = Vec::new();
    let mut k: usize = 0;
    while k < raw.len()
        invariant
            k <= raw@.len(),
            enc matches Some(l) ==> is_encoding_label(l@),
            e == opt_text(enc),
            pair_texts(out@) == pair_texts(raw@).take(k as int).map_values(
                |p: (Seq<char>, Seq<char>)| (form_decoded(p.0, e), form_decoded(p.1, e)),
            ),
        decreases raw@.len() - k,
    {
        let n = decode_form_text(&raw[k].0, &enc);
        let v = decode_form_text(&raw[k].1, &enc);
        let ghost before = out@;
        out.push((n, v));
        k += 1;
        proof {
            assert(pair_texts(out@) =~= pair_texts(before).push((n@, v@)));
            assert(pair_texts(raw@).take(k as int).drop_last() =~= pair_texts(raw@).take(
                k - 1,
            ));
            assert(pair_texts(out@) =~= pair_texts(raw@).take(k as int).map_values(
                |p: (Seq<char>, Seq<char>)| (form_decoded(p.0, e), form_decoded(p.1, e)),
            ));
        }
    }
    proof {
        assert(pair_texts(raw@).take(k as int) =~= pair_texts(raw@));
    }
    out
}

/// The text one byte becomes in a form body.
pub open spec fn form_byte(b: u8) -> Seq<char> {
    if b == 0x20 {
        seq!['+']
    } else if always_safe(b) {
        seq![b as char]
    } else {
        escape_of(b)
    }
}

pub open spec fn form_bytes(bs: Seq<u8>) -> Seq<char>
    decreases bs.len(),
{
    if bs.len() == 0 {
        Seq::empty()
    } else {
        form_bytes(bs.drop_last()) + form_byte(bs.last())
    }
}

/// The bytes of `s` in the encoding `enc`, or in UTF-8 when there is none or
/// when it cannot write `s`.
pub open spec fn bytes_in(s: Seq<char>, enc: Option<Seq<char>>) -> Seq<u8> {
    match enc {
        Some(l) => match encoded_as(l, s) {
            Some(b) => b,
            None => vstd::utf8::encode_utf8(s),
        },
        None => vstd::utf8::encode_utf8(s),
    }
}

pub open spec fn form_pair_text(p: (Seq<char>, Seq<char>), enc: Option<Seq<char>>) -> Seq<char> {
    form_bytes(bytes_in(p.0, enc)) + seq!['='] + form_bytes(bytes_in(p.1, enc))
}

/// The pairs as `name=value`, separated by `&`.
pub open spec fn form_text(pairs: Seq<(Seq<char>, Seq<char>)>, enc: Option<Seq<char>>) -> Seq<
    char,
>
    decreases pairs.len(),
{
    if pairs.len() == 0 {
        Seq::empty()
    } else if pairs.len() == 1 {
        form_pair_text(pairs[0], enc)
    } else {
        form_text(pairs.drop_last(), enc) + seq!['&'] + form_pair_text(pairs.last(), enc)
    }
}

fn push_form_bytes(output: &mut String, bytes: &[u8])
    ensures
        final(output)@ == old(output)@ + form_bytes(bytes@),
{
    let mut i: usize = 0;
    while i < bytes.len()
        invariant
            0 <= i <= bytes@.len(),
            output@ == old(output)@ + form_bytes(bytes@.take(i as int)),
        decreases bytes@.len() - i,
    {
        let b = bytes[i];
        proof {
            assert(bytes@.take(i + 1).drop_last() =~= bytes@.take(i as int));
        }
        if b == 0x20 {
            push_char(output, '+');
        } else if (0x41 <= b && b <= 0x5A) || (0x61 <= b && b <= 0x7A) || (0x30 <= b && b <= 0x39)
            || b == 0x2A || b == 0x2D || b == 0x2E || b == 0x5F {
            push_char(output, b as char);
        } else {
            percent_encode_byte(b, output);
        }
        i += 1;
        proof {
            assert(output@ =~= old(output)@ + form_bytes(bytes@.take(i as int)));
        }
    }
    proof {
        assert(bytes@.take(i as int) =~= bytes@);
    }
}

fn byte_serialize(input: &str, output: &mut String, enc: &Option<String>)
    requires
        *enc matches Some(l) ==> is_encoding_label(l@),
    ensures
        final(output)@ == old(output)@ + form_bytes(bytes_in(input@, opt_text(*enc))),
{
    match enc {
        Some(l) => match encode_ncr_as(l.as_str(), input) {
            Some(v) => push_form_bytes(output, v.as_slice()),
            None => push_form_bytes(output, input.as_bytes()),
        },
        None => push_form_bytes(output, input.as_bytes()),
    }
}

/// Writes name and value pairs as `application/x-www-form-urlencoded` text.
pub fn serialize_form_urlencoded(
    pairs: Vec<(String, String)>,
    encoding_override: Option<&str>,
) -> (r: String)
    ensures
        r@ == form_text(pair_texts(pairs@), label_of(encoding_override)),
{
    let enc: Option<String> = match encoding_override {
        Some(l) => if known_label(l) {
            Some(l.to_owned())
        } else {
            None
        },
        None => None,
    };
    let ghost e = label_of(encoding_override);
    let mut output = String::new();
    let mut k: usize = 0;
    while k < pairs.len()
        invariant
            k <= pairs@.len(),
            enc matches Some(l) ==> is_encoding_label(l@),
            opt_text(enc) == e,
            output@ == form_text(pair_texts(pairs@).take(k as int), e),
        decreases pairs@.len() - k,
    {
        let ghost before = output@;
        if k > 0 {
            push_char(&mut output, '&');
        }
        byte_serialize(pairs[k].0.as_str(), &mut output, &enc);
        push_char(&mut output, '=');
        byte_serialize(pairs[k].1.as_str(), &mut output, &enc);
        proof {
            let t = pair_texts(pairs@).take(k + 1);
            assert(t.drop_last() =~= pair_texts(pairs@).take(k as int));
            assert(t.last() == (pairs@[k as int].0@, pairs@[k as int].1@));
            if k == 0 {
                assert(output@ =~= form_text(t, e));
            } else {
                assert(output@ =~= form_text(t, e));
            }
        }
        k += 1;
    }
    proof {
        assert(pair_texts(pairs@).take(k as int) =~= pair_texts(pairs@));
    }
    output
}

} // verus!
