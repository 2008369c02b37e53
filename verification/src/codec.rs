//! Little-endian integer encodings and lowercase hex, as used by the
//! synthetic files: an account balance is read as its 128-bit
//! little-endian encoding, and account home directories are named by the
//! hex encoding of the account address.

use vstd::prelude::*;

verus! {

/// The little-endian encoding of `x` in exactly `n` bytes.
pub open spec fn le_bytes(x: nat, n: nat) -> Seq<u8>
    decreases n,
{
    if n == 0 {
        Seq::empty()
    } else {
        seq![(x % 256) as u8] + le_bytes(x / 256, (n - 1) as nat)
    }
}

/// The number encoded little-endian by `s`.
pub open spec fn le_value(s: Seq<u8>) -> nat
    decreases s.len(),
{
    if s.len() == 0 {
        0
    } else {
        (s[0] + 256 * le_value(s.subrange(1, s.len() as int))) as nat
    }
}

pub proof fn lemma_le_bytes_len(x: nat, n: nat)
    ensures
        le_bytes(x, n).len() == n,
    decreases n,
{
    if n > 0 {
        lemma_le_bytes_len(x / 256, (n - 1) as nat);
    }
}

/// The `n`-th power of 256: the count of values that fit in `n` bytes.
pub open spec fn pow256(n: nat) -> nat
    decreases n,
{
    if n == 0 {
        1
    } else {
        256 * pow256((n - 1) as nat)
    }
}

/// Encoding then decoding recovers the value, provided it fits in `n` bytes.
pub proof fn lemma_le_round_trip(x: nat, n: nat)
    requires
        x < pow256(n),
    ensures
        le_value(le_bytes(x, n)) == x,
    decreases n,
{
    if n > 0 {
        let s = le_bytes(x, n);
        lemma_le_bytes_len(x / 256, (n - 1) as nat);
        assert(x / 256 < pow256((n - 1) as nat)) by (nonlinear_arith)
            requires
                x < 256 * pow256((n - 1) as nat),
        ;
        lemma_le_round_trip(x / 256, (n - 1) as nat);
        assert(s.subrange(1, s.len() as int) =~= le_bytes(x / 256, (n - 1) as nat));
        assert(x == (x % 256) + 256 * (x / 256)) by (nonlinear_arith);
    }
}

/// Little-endian encoding of a `u32` in four bytes.
pub fn u32_to_le(x: u32) -> (r: Vec<u8>)
    ensures
        r@ == le_bytes(x as nat, 4),
{
    let mut r: Vec<u8> = Vec::new();
    let mut rest: u32 = x;
    let mut i: usize = 0;
    while i < 4
        invariant
            i <= 4,
            r@.len() == i,
            le_bytes(x as nat, 4) =~= r@ + le_bytes(rest as nat, (4 - i) as nat),
        decreases 4 - i,
    {
        proof {
            assert(le_bytes(rest as nat, (4 - i) as nat)[0] == (rest as nat % 256) as u8);
        }
        r.push((rest % 256) as u8);
        rest = rest / 256;
        i = i + 1;
        proof {
            assert(le_bytes(x as nat, 4) =~= r@ + le_bytes(rest as nat, (4 - i) as nat));
        }
    }
    r
}

/// Little-endian encoding of a `u128` in sixteen bytes.
pub fn u128_to_le(x: u128) -> (r: Vec<u8>)
    ensures
        r@ == le_bytes(x as nat, 16),
{
    let mut r: Vec<u8> = Vec::new();
    let mut rest: u128 = x;
    let mut i: usize = 0;
    while i < 16
        invariant
            i <= 16,
            r@.len() == i,
            le_bytes(x as nat, 16) =~= r@ + le_bytes(rest as nat, (16 - i) as nat),
        decreases 16 - i,
    {
        proof {
            assert(le_bytes(rest as nat, (16 - i) as nat)[0] == (rest as nat % 256) as u8);
        }
        r.push((rest % 256) as u8);
        rest = rest / 256;
        i = i + 1;
        proof {
            assert(le_bytes(x as nat, 16) =~= r@ + le_bytes(rest as nat, (16 - i) as nat));
        }
    }
    r
}

/// The `u32` little-endian encoded at `s[at .. at + 4]`.
pub fn u32_from_le(s: &[u8], at: usize) -> (r: u32)
    requires
        at + 4 <= s@.len(),
    ensures
        r as nat == le_value(s@.subrange(at as int, at + 4)),
{
    let b0 = s[at] as u32;
    let b1 = s[at + 1] as u32;
    let b2 = s[at + 2] as u32;
    let b3 = s[at + 3] as u32;
    let r = b0 + b1 * 256 + b2 * 65536 + b3 * 16777216;
    proof {
        let sub = s@.subrange(at as int, at + 4);
        let s1 = sub.subrange(1, 4);
        let s2 = sub.subrange(2, 4);
        let s3 = sub.subrange(3, 4);
        assert(s1.subrange(1, 3) =~= s2);
        assert(s2.subrange(1, 2) =~= s3);
        assert(s3.subrange(1, 1) =~= Seq::<u8>::empty());
        assert(le_value(s3) == s3[0] + 256 * le_value(Seq::<u8>::empty()));
        assert(le_value(s2) == s2[0] + 256 * le_value(s3));
        assert(le_value(s1) == s1[0] + 256 * le_value(s2));
        assert(le_value(sub) == sub[0] + 256 * le_value(s1));
        assert(sub[0] == s@[at as int] && s1[0] == s@[at + 1] && s2[0] == s@[at + 2] && s3[0]
            == s@[at + 3]);
    }
    r
}

/// The lowercase ASCII hex digit for a value below sixteen.
pub open spec fn hex_digit(d: nat) -> u8 {
    if d < 10 {
        (48 + d) as u8
    } else {
        (87 + d) as u8
    }
}

/// The lowercase hex encoding of `s`: two digits for each byte.
pub open spec fn hex_of(s: Seq<u8>) -> Seq<u8>
    decreases s.len(),
{
    if s.len() == 0 {
        Seq::empty()
    } else {
        seq![hex_digit(s[0] as nat / 16), hex_digit(s[0] as nat % 16)] + hex_of(
            s.subrange(1, s.len() as int),
        )
    }
}

pub proof fn lemma_hex_of_len(s: Seq<u8>)
    ensures
        hex_of(s).len() == 2 * s.len(),
    decreases s.len(),
{
    if s.len() > 0 {
        lemma_hex_of_len(s.subrange(1, s.len() as int));
    }
}

proof fn lemma_hex_of_push(s: Seq<u8>, b: u8)
    ensures
        hex_of(s.push(b)) == hex_of(s) + seq![hex_digit(b as nat / 16), hex_digit(b as nat % 16)],
    decreases s.len(),
{
    if s.len() == 0 {
        let p = s.push(b);
        assert(p.subrange(1, 1) =~= Seq::<u8>::empty());
        assert(hex_of(p) == seq![hex_digit(p[0] as nat / 16), hex_digit(p[0] as nat % 16)]
            + hex_of(p.subrange(1, 1)));
        assert(hex_of(Seq::<u8>::empty()) =~= Seq::<u8>::empty());
        assert(hex_of(s) =~= Seq::<u8>::empty());
        assert(hex_of(s.push(b)) =~= hex_of(s) + seq![
            hex_digit(b as nat / 16),
            hex_digit(b as nat % 16),
        ]);
    } else {
        assert(s.push(b).subrange(1, s.len() as int + 1) =~= s.subrange(1, s.len() as int).push(
            b,
        ));
        lemma_hex_of_push(s.subrange(1, s.len() as int), b);
        assert(hex_of(s.push(b)) =~= hex_of(s) + seq![
            hex_digit(b as nat / 16),
            hex_digit(b as nat % 16),
        ]);
    }
}

/// Lowercase hex encoding of a byte string.
pub fn hex_encode(s: &[u8]) -> (r: Vec<u8>)
    ensures
        r@ == hex_of(s@),
{
    let mut r: Vec<u8> = Vec::new();
    let mut i: usize = 0;
    while i < s.len()
        invariant
            i <= s@.len(),
            r@ == hex_of(s@.subrange(0, i as int)),
        decreases s@.len() - i,
    {
        let b = s[i];
        let hi = b / 16;
        let lo = b % 16;
        r.push(if hi < 10 {
            48 + hi
        } else {
            87 + hi
        });
        r.push(if lo < 10 {
            48 + lo
        } else {
            87 + lo
        });
        proof {
            lemma_hex_of_push(s@.subrange(0, i as int), s@[i as int]);
            assert(s@.subrange(0, i as int).push(s@[i as int]) =~= s@.subrange(0, i + 1));
        }
        i = i + 1;
    }
    proof {
        assert(s@.subrange(0, s@.len() as int) =~= s@);
    }
    r
}

/// The value of an ASCII hex digit, if it is one (lowercase letters only,
/// as produced by `hex_of`).
pub open spec fn hex_val(b: u8) -> Option<nat> {
    if 48 <= b && b <= 57 {
        Some((b - 48) as nat)
    } else if 97 <= b && b <= 102 {
        Some((b - 87) as nat)
    } else {
        None
    }
}

/// The bytes whose hex encoding is `s`, if `s` is a well-formed lowercase
/// hex string of even length.
pub open spec fn hex_parse(s: Seq<u8>) -> Option<Seq<u8>>
    decreases s.len(),
{
    if s.len() == 0 {
        Some(Seq::empty())
    } else if s.len() == 1 {
        None
    } else {
        match (hex_val(s[0]), hex_val(s[1])) {
            (Some(hi), Some(lo)) => match hex_parse(s.subrange(2, s.len() as int)) {
                Some(rest) => Some(seq![(hi * 16 + lo) as u8] + rest),
                None => None,
            },
            _ => None,
        }
    }
}

proof fn lemma_hex_digit_val(d: nat)
    requires
        d < 16,
    ensures
        hex_val(hex_digit(d)) == Some(d),
{
}

/// Decoding inverts encoding.
pub proof fn lemma_hex_round_trip(s: Seq<u8>)
    ensures
        hex_parse(hex_of(s)) == Some(s),
    decreases s.len(),
{
    if s.len() == 0 {
        assert(hex_of(s) =~= Seq::<u8>::empty());
    } else {
        let h = hex_of(s);
        lemma_hex_of_len(s.subrange(1, s.len() as int));
        lemma_hex_digit_val(s[0] as nat / 16);
        lemma_hex_digit_val(s[0] as nat % 16);
        lemma_hex_round_trip(s.subrange(1, s.len() as int));
        assert(h.subrange(2, h.len() as int) =~= hex_of(s.subrange(1, s.len() as int)));
        assert(s[0] as nat / 16 * 16 + s[0] as nat % 16 == s[0] as nat);
        assert(hex_parse(h).unwrap() =~= s);
    }
}

/// Decode a lowercase hex string; `None` on odd length or a non-digit.
pub fn hex_decode(s: &[u8]) -> (r: Option<Vec<u8>>)
    ensures
        match r {
            Some(v) => hex_parse(s@) == Some(v@),
            None => hex_parse(s@) is None,
        },
{
    if s.len() % 2 != 0 {
        proof {
            lemma_hex_parse_odd(s@);
        }
        return None;
    }
    let mut r: Vec<u8> = Vec::new();
    let mut i: usize = 0;
    proof {
        assert(s@.subrange(0, s@.len() as int) =~= s@);
        match hex_parse(s@) {
            Some(rest) => {
                assert(r@ + rest =~= rest);
            },
            None => {},
        }
    }
    while i < s.len()
        invariant
            i <= s@.len(),
            i % 2 == 0,
            s@.len() % 2 == 0,
            hex_parse(s@) == match hex_parse(s@.subrange(i as int, s@.len() as int)) {
                Some(rest) => Some(r@ + rest),
                None => None::<Seq<u8>>,
            },
        decreases s@.len() - i,
    {
        proof {
            let tail = s@.subrange(i as int, s@.len() as int);
            assert(tail.len() >= 2);
            assert(tail[0] == s@[i as int] && tail[1] == s@[i + 1]);
        }
        let hi: u8;
        let lo: u8;
        let b0 = s[i];
        let b1 = s[i + 1];
        if 48 <= b0 && b0 <= 57 {
            hi = b0 - 48;
        } else if 97 <= b0 && b0 <= 102 {
            hi = b0 - 87;
        } else {
            proof {
                let tail = s@.subrange(i as int, s@.len() as int);
                assert(hex_val(tail[0]) is None);
                assert(hex_parse(tail) is None);
            }
            return None;
        }
        if 48 <= b1 && b1 <= 57 {
            lo = b1 - 48;
        } else if 97 <= b1 && b1 <= 102 {
            lo = b1 - 87;
        } else {
            proof {
                let tail = s@.subrange(i as int, s@.len() as int);
                assert(hex_val(tail[1]) is None);
                assert(hex_parse(tail) is None);
            }
            return None;
        }
        let v = hi * 16 + lo;
        proof {
            let tail = s@.subrange(i as int, s@.len() as int);
            let tail2 = s@.subrange(i + 2, s@.len() as int);
            assert(tail.subrange(2, tail.len() as int) =~= tail2);
            assert(hex_val(tail[0]) == Some(hi as nat));
            assert(hex_val(tail[1]) == Some(lo as nat));
            match hex_parse(tail2) {
                Some(rest2) => {
                    assert(hex_parse(tail) == Some(seq![v] + rest2));
                    assert(r@.push(v) + rest2 =~= r@ + (seq![v] + rest2));
                },
                None => {
                    assert(hex_parse(tail) is None);
                },
            }
        }
        r.push(v);
        i = i + 2;
    }
    proof {
        assert(s@.subrange(s@.len() as int, s@.len() as int) =~= Seq::<u8>::empty());
        match hex_parse(s@.subrange(s@.len() as int, s@.len() as int)) {
            Some(rest) => {
                assert(r@ + rest =~= r@);
            },
            None => {},
        }
    }
    Some(r)
}

proof fn lemma_hex_parse_odd(s: Seq<u8>)
    requires
        s.len() % 2 == 1,
    ensures
        hex_parse(s) is None,
    decreases s.len(),
{
    if s.len() > 1 {
        lemma_hex_parse_odd(s.subrange(2, s.len() as int));
    }
}

/// Byte-for-byte equality of two byte strings.
pub fn bytes_eq(a: &[u8], b: &[u8]) -> (r: bool)
    ensures
        r <==> a@ == b@,
{
    if a.len() != b.len() {
        proof {
            assert(a@.len() != b@.len());
        }
        return false;
    }
    let n = a.len();
    let mut i: usize = 0;
    while i < n
        invariant
            n == a@.len() && n == b@.len(),
            i <= n,
            forall|j: int| 0 <= j < i ==> a@[j] == b@[j],
        decreases n - i,
    {
        if a[i] != b[i] {
            return false;
        }
        i = i + 1;
    }
    proof {
        assert(a@ =~= b@);
    }
    true
}

/// A copy of `s[start .. start + n]`.
pub fn copy_range(s: &[u8], start: usize, n: usize) -> (r: Vec<u8>)
    requires
        start + n <= s@.len(),
    ensures
        r@ == s@.subrange(start as int, start + n),
{
    let slen = s.len();
    let mut r: Vec<u8> = Vec::new();
    let mut i: usize = 0;
    while i < n
        invariant
            i <= n,
            start + n <= s@.len(),
            s@.len() == slen,
            r@ =~= s@.subrange(start as int, start + i),
        decreases n - i,
    {
        r.push(s[start + i]);
        i = i + 1;
        proof {
            assert(r@ =~= s@.subrange(start as int, start + i));
        }
    }
    r
}

/// The wire form of a topic list: for each topic, a four-byte
/// little-endian length followed by the topic's bytes.
pub open spec fn encode_topics(topics: Seq<Seq<u8>>) -> Seq<u8>
    decreases topics.len(),
{
    if topics.len() == 0 {
        Seq::empty()
    } else {
        le_bytes(topics[0].len(), 4) + topics[0] + encode_topics(
            topics.subrange(1, topics.len() as int),
        )
    }
}

/// The wire form of one structured log entry: a four-byte little-endian
/// topic count, the topic list, then a four-byte little-endian data
/// length and the data bytes.
pub open spec fn encode_log(topics: Seq<Seq<u8>>, data: Seq<u8>) -> Seq<u8> {
    le_bytes(topics.len(), 4) + encode_topics(topics) + le_bytes(data.len(), 4) + data
}

/// Read `n` length-prefixed topics from the front of `s`; the remainder
/// of `s` is returned beside them.
pub open spec fn parse_topics(s: Seq<u8>, n: nat) -> Option<(Seq<Seq<u8>>, Seq<u8>)>
    decreases n,
{
    if n == 0 {
        Some((Seq::empty(), s))
    } else if s.len() < 4 {
        None
    } else {
        let tlen = le_value(s.subrange(0, 4));
        if s.len() < 4 + tlen {
            None
        } else {
            let t = s.subrange(4, 4 + tlen as int);
            match parse_topics(s.subrange(4 + tlen as int, s.len() as int), (n - 1) as nat) {
                Some(p) => Some((seq![t] + p.0, p.1)),
                None => None,
            }
        }
    }
}

/// The topics and data encoded by one whole structured log entry;
/// `None` unless `s` is exactly one well-formed entry.
pub open spec fn parse_log(s: Seq<u8>) -> Option<(Seq<Seq<u8>>, Seq<u8>)> {
    if s.len() < 4 {
        None
    } else {
        match parse_topics(s.subrange(4, s.len() as int), le_value(s.subrange(0, 4))) {
            Some(p) => {
                let rest = p.1;
                if rest.len() < 4 {
                    None
                } else if rest.len() != 4 + le_value(rest.subrange(0, 4)) {
                    None
                } else {
                    Some((p.0, rest.subrange(4, rest.len() as int)))
                }
            },
            None => None,
        }
    }
}

proof fn lemma_parse_topics_round_trip(topics: Seq<Seq<u8>>, suffix: Seq<u8>)
    requires
        forall|i: int| 0 <= i < topics.len() ==> (#[trigger] topics[i]).len() < pow256(4),
    ensures
        parse_topics(encode_topics(topics) + suffix, topics.len()) == Some((topics, suffix)),
    decreases topics.len(),
{
    if topics.len() == 0 {
        assert(encode_topics(topics) + suffix =~= suffix);
    } else {
        let t = topics[0];
        let rest = topics.subrange(1, topics.len() as int);
        let s = encode_topics(topics) + suffix;
        lemma_le_bytes_len(t.len(), 4);
        lemma_le_round_trip(t.len(), 4);
        assert(s =~= le_bytes(t.len(), 4) + t + (encode_topics(rest) + suffix));
        assert(s.subrange(0, 4) =~= le_bytes(t.len(), 4));
        assert(s.len() >= 4 + t.len());
        assert(s.subrange(4, 4 + t.len() as int) =~= t);
        assert(s.subrange(4 + t.len() as int, s.len() as int) =~= encode_topics(rest) + suffix);
        lemma_parse_topics_round_trip(rest, suffix);
        assert(seq![t] + rest =~= topics);
    }
}

/// Parsing inverts encoding, for any entry whose counts fit the four-byte
/// length fields.
pub proof fn lemma_log_round_trip(topics: Seq<Seq<u8>>, data: Seq<u8>)
    requires
        topics.len() < pow256(4),
        data.len() < pow256(4),
        forall|i: int| 0 <= i < topics.len() ==> (#[trigger] topics[i]).len() < pow256(4),
    ensures
        parse_log(encode_log(topics, data)) == Some((topics, data)),
{
    let s = encode_log(topics, data);
    let tail = le_bytes(data.len(), 4) + data;
    lemma_le_bytes_len(topics.len(), 4);
    lemma_le_round_trip(topics.len(), 4);
    lemma_le_bytes_len(data.len(), 4);
    lemma_le_round_trip(data.len(), 4);
    assert(s.subrange(0, 4) =~= le_bytes(topics.len(), 4));
    assert(s.subrange(4, s.len() as int) =~= encode_topics(topics) + tail);
    lemma_parse_topics_round_trip(topics, tail);
    assert(tail.subrange(0, 4) =~= le_bytes(data.len(), 4));
    assert(tail.subrange(4, tail.len() as int) =~= data);
}

/// Four bytes hold values up to this bound.
pub proof fn lemma_pow256_4()
    ensures
        pow256(4) == 4294967296,
{
    assert(pow256(0) == 1);
    assert(pow256(1) == 256);
    assert(pow256(2) == 65536);
    assert(pow256(3) == 16777216);
    assert(pow256(4) == 4294967296);
}

/// Encode one structured log entry; the count and length fields are four
/// bytes wide, so each count must fit in them.
pub fn encode_log_bytes(topics: &Vec<Vec<u8>>, data: &Vec<u8>) -> (r: Vec<u8>)
    requires
        topics@.len() < pow256(4),
        forall|i: int| 0 <= i < topics@.len() ==> (#[trigger] topics@[i])@.len() < pow256(4),
        data@.len() < pow256(4),
    ensures
        r@ == encode_log(topics.deep_view(), data@),
{
    proof {
        lemma_pow256_4();
    }
    let mut r = u32_to_le(topics.len() as u32);
    let mut i: usize = 0;
    while i < topics.len()
        invariant
            i <= topics@.len(),
            forall|j: int| 0 <= j < topics@.len() ==> (#[trigger] topics@[j])@.len() < pow256(4),
            r@ =~= le_bytes(topics.deep_view().len(), 4) + encode_topics(
                topics.deep_view().subrange(0, i as int),
            ),
        decreases topics@.len() - i,
    {
        proof {
            lemma_pow256_4();
            assert(topics@[i as int]@ == topics.deep_view()[i as int]);
        }
        let t = &topics[i];
        let mut lenb = u32_to_le(t.len() as u32);
        r.append(&mut lenb);
        let mut tc = copy_range(t.as_slice(), 0, t.len());
        r.append(&mut tc);
        i = i + 1;
        proof {
            let dv = topics.deep_view();
            assert(t@ =~= t@.subrange(0, t@.len() as int));
            lemma_encode_topics_push(dv.subrange(0, i - 1), dv[i - 1]);
            assert(dv.subrange(0, i - 1).push(dv[i - 1]) =~= dv.subrange(0, i as int));
            assert(r@ =~= le_bytes(dv.len(), 4) + encode_topics(dv.subrange(0, i as int)));
        }
    }
    let mut dlenb = u32_to_le(data.len() as u32);
    r.append(&mut dlenb);
    let mut dc = copy_range(data.as_slice(), 0, data.len());
    r.append(&mut dc);
    proof {
        let dv = topics.deep_view();
        assert(dv.subrange(0, dv.len() as int) =~= dv);
        assert(data@ =~= data@.subrange(0, data@.len() as int));
        assert(r@ =~= encode_log(dv, data@));
    }
    r
}

proof fn lemma_encode_topics_push(topics: Seq<Seq<u8>>, t: Seq<u8>)
    ensures
        encode_topics(topics.push(t)) == encode_topics(topics) + le_bytes(t.len(), 4) + t,
    decreases topics.len(),
{
    lemma_le_bytes_len(t.len(), 4);
    if topics.len() > 0 {
        lemma_le_bytes_len(topics[0].len(), 4);
    }
    if topics.len() == 0 {
        let p = topics.push(t);
        assert(p.subrange(1, 1) =~= Seq::<Seq<u8>>::empty());
        assert(encode_topics(p) == le_bytes(p[0].len(), 4) + p[0] + encode_topics(
            p.subrange(1, 1),
        ));
        assert(encode_topics(p.subrange(1, 1)) =~= Seq::<u8>::empty());
        assert(encode_topics(topics) =~= Seq::<u8>::empty());
        assert(p[0] == t);
        assert(encode_topics(topics.push(t)) =~= encode_topics(topics) + le_bytes(t.len(), 4) + t);
    } else {
        let p = topics.push(t);
        let rest = topics.subrange(1, topics.len() as int);
        assert(p.subrange(1, topics.len() as int + 1) =~= rest.push(t));
        lemma_encode_topics_push(rest, t);
        assert(p[0] == topics[0]);
        assert(encode_topics(p) == le_bytes(p[0].len(), 4) + p[0] + encode_topics(
            p.subrange(1, p.len() as int),
        ));
        assert(encode_topics(topics) == le_bytes(topics[0].len(), 4) + topics[0] + encode_topics(
            rest,
        ));
        assert(encode_topics(topics.push(t)) =~= encode_topics(topics) + le_bytes(t.len(), 4) + t);
    }
}

/// Decode one whole structured log entry; `None` unless `s` is exactly
/// one well-formed entry.
#[verifier::loop_isolation(false)]
pub fn parse_log_bytes(s: &[u8]) -> (r: Option<(Vec<Vec<u8>>, Vec<u8>)>)
    ensures
        match r {
            Some(p) => parse_log(s@) == Some((p.0.deep_view(), p.1@)),
            None => parse_log(s@) is None,
        },
{
    let slen = s.len();
    if slen < 4 {
        return None;
    }
    let n = u32_from_le(s, 0);
    let ghost whole_tail = s@.subrange(4, s@.len() as int);
    let mut topics: Vec<Vec<u8>> = Vec::new();
    let mut pos: usize = 4;
    let mut k: u32 = 0;
    proof {
        assert(whole_tail.subrange(0, whole_tail.len() as int) =~= whole_tail);
        match parse_topics(whole_tail, n as nat) {
            Some(p) => {
                assert(topics.deep_view() + p.0 =~= p.0);
            },
            None => {},
        }
    }
    while k < n
        invariant
            4 <= pos <= s@.len(),
            k <= n,
            whole_tail == s@.subrange(4, s@.len() as int),
            parse_topics(whole_tail, n as nat) == match parse_topics(
                s@.subrange(pos as int, s@.len() as int),
                (n - k) as nat,
            ) {
                Some(p) => Some((topics.deep_view() + p.0, p.1)),
                None => None::<(Seq<Seq<u8>>, Seq<u8>)>,
            },
        decreases n - k,
    {
        let ghost tail = s@.subrange(pos as int, s@.len() as int);
        if s.len() - pos < 4 {
            proof {
                assert(parse_topics(tail, (n - k) as nat) is None);
            }
            return None;
        }
        let tlen32 = u32_from_le(s, pos);
        proof {
            assert(tail.subrange(0, 4) =~= s@.subrange(pos as int, pos + 4));
        }
        if ((s.len() - pos - 4) as u64) < (tlen32 as u64) {
            proof {
                assert(parse_topics(tail, (n - k) as nat) is None);
            }
            return None;
        }
        let tlen = tlen32 as usize;
        let t = copy_range(s, pos + 4, tlen);
        proof {
            assert(t@ =~= tail.subrange(4, 4 + tlen as int));
            assert(tail.subrange(4 + tlen as int, tail.len() as int) =~= s@.subrange(
                pos + 4 + tlen,
                s@.len() as int,
            ));
            let dv = topics.deep_view();
            match parse_topics(s@.subrange(pos + 4 + tlen, s@.len() as int), (n - k - 1) as nat) {
                Some(p) => {
                    assert(parse_topics(tail, (n - k) as nat) == Some((seq![t@] + p.0, p.1)));
                    assert(dv + (seq![t@] + p.0) =~= dv.push(t@) + p.0);
                },
                None => {
                    assert(parse_topics(tail, (n - k) as nat) is None);
                },
            }
        }
        let ghost old_topics = topics.deep_view();
        topics.push(t);
        proof {
            assert(topics.deep_view() =~~= old_topics.push(s@.subrange(
                pos + 4,
                pos + 4 + tlen as int,
            )));
        }
        pos = pos + 4 + tlen;
        k = k + 1;
    }
    let ghost tail = s@.subrange(pos as int, s@.len() as int);
    if s.len() - pos < 4 {
        return None;
    }
    let dlen32 = u32_from_le(s, pos);
    proof {
        assert(tail.subrange(0, 4) =~= s@.subrange(pos as int, pos + 4));
    }
    if ((s.len() - pos - 4) as u64) != (dlen32 as u64) {
        return None;
    }
    let dlen = dlen32 as usize;
    let data = copy_range(s, pos + 4, dlen);
    proof {
        assert(data@ =~= tail.subrange(4, tail.len() as int));
        match parse_topics(tail, 0nat) {
            Some(p) => {
                assert(topics.deep_view() + p.0 =~= topics.deep_view());
            },
            None => {},
        }
    }
    Some((topics, data))
}

/// A topic as it lands in an event: truncated to, or zero-padded out to,
/// exactly thirty-two bytes.
pub open spec fn pad32(t: Seq<u8>) -> Seq<u8> {
    if t.len() >= 32 {
        t.subrange(0, 32)
    } else {
        t + Seq::new((32 - t.len()) as nat, |i: int| 0u8)
    }
}

/// Truncate or zero-pad a topic to exactly thirty-two bytes.
pub fn topic_pad32(t: &[u8]) -> (r: Vec<u8>)
    ensures
        r@ == pad32(t@),
{
    if t.len() >= 32 {
        let r = copy_range(t, 0, 32);
        proof {
            assert(r@ =~= pad32(t@));
        }
        r
    } else {
        let mut r = copy_range(t, 0, t.len());
        let mut i: usize = t.len();
        while i < 32
            invariant
                t@.len() <= i <= 32,
                r@.len() == i,
                r@.subrange(0, t@.len() as int) =~= t@,
                forall|j: int| t@.len() <= j < i ==> r@[j] == 0u8,
            decreases 32 - i,
        {
            r.push(0);
            i = i + 1;
        }
        proof {
            assert(t@ =~= t@.subrange(0, t@.len() as int));
            assert(r@ =~= pad32(t@));
        }
        r
    }
}

/// An example structured log entry: its topics, its data, and its wire
/// encoding.
pub fn create_log() -> (r: (Vec<Vec<u8>>, Vec<u8>, Vec<u8>))
    ensures
        r.0.deep_view() == seq![seq![104u8, 101u8, 108u8, 108u8, 111u8], seq![119u8, 111u8, 114u8, 108u8, 100u8]],
        r.1@ == seq![
            73u8, 32u8, 98u8, 105u8, 100u8, 32u8, 116u8, 104u8, 101u8, 101u8, 32u8, 104u8, 101u8,
            108u8, 108u8, 111u8, 33u8,
        ],
        r.2@ == encode_log(r.0.deep_view(), r.1@),
{
    let topics: Vec<Vec<u8>> = vec![
        vec![104u8, 101u8, 108u8, 108u8, 111u8],
        vec![119u8, 111u8, 114u8, 108u8, 100u8],
    ];
    let data: Vec<u8> = vec![
        73u8, 32u8, 98u8, 105u8, 100u8, 32u8, 116u8, 104u8, 101u8, 101u8, 32u8, 104u8, 101u8,
        108u8, 108u8, 111u8, 33u8,
    ];
    proof {
        lemma_pow256_4();
        assert(topics.deep_view() =~~= seq![
            seq![104u8, 101u8, 108u8, 108u8, 111u8],
            seq![119u8, 111u8, 114u8, 108u8, 100u8],
        ]);
    }
    let log = encode_log_bytes(&topics, &data);
    (topics, data, log)
}

} // verus!
