//! The wire format of a replicated action.
//!
//! An outgoing `(pool, action)` pair is serialized once into a single
//! text frame, `{"pool":"…","action":"…"}`, with the two payloads carried
//! byte for byte except that quote and backslash are escaped with a
//! backslash. The decoder accepts exactly the canonical frames the encoder
//! produces, so a frame pins its pair down uniquely.

use vstd::prelude::*;

verus! {

pub const QUOTE: u8 = 34;
pub const BACKSLASH: u8 = 92;
pub const RBRACE: u8 = 125;

/// How one payload byte appears on the wire.
pub open spec fn escape_byte(b: u8) -> Seq<u8> {
    if b == QUOTE || b == BACKSLASH {
        seq![BACKSLASH, b]
    } else {
        seq![b]
    }
}

/// How a whole payload appears on the wire.
pub open spec fn escaped(s: Seq<u8>) -> Seq<u8>
    decreases s.len(),
{
    if s.len() == 0 {
        Seq::empty()
    } else {
        escape_byte(s[0]) + escaped(s.skip(1))
    }
}

/// The bytes of `{"pool":"`.
pub open spec fn frame_prefix() -> Seq<u8> {
    seq![123u8, 34u8, 112u8, 111u8, 111u8, 108u8, 34u8, 58u8, 34u8]
}

/// The bytes of `","action":"`, as they stand after the pool field's
/// closing quote.
pub open spec fn frame_mid() -> Seq<u8> {
    seq![44u8, 34u8, 97u8, 99u8, 116u8, 105u8, 111u8, 110u8, 34u8, 58u8, 34u8]
}

/// The complete frame for one `(pool, action)` pair.
pub open spec fn frame_spec(pool: Seq<u8>, action: Seq<u8>) -> Seq<u8> {
    frame_prefix() + escaped(pool) + seq![QUOTE] + frame_mid() + escaped(action) + seq![
        QUOTE,
        RBRACE,
    ]
}

/// Scan one escaped field up to its closing quote: the decoded field and
/// what follows the quote, or nothing if the input ends first or holds a
/// backslash before anything but quote or backslash.
pub open spec fn scan_field(s: Seq<u8>) -> Option<(Seq<u8>, Seq<u8>)>
    decreases s.len(),
{
    if s.len() == 0 {
        None
    } else if s[0] == QUOTE {
        Some((Seq::empty(), s.skip(1)))
    } else if s[0] == BACKSLASH {
        if s.len() >= 2 && (s[1] == QUOTE || s[1] == BACKSLASH) {
            match scan_field(s.skip(2)) {
                Some(p) => Some((seq![s[1]] + p.0, p.1)),
                None => None,
            }
        } else {
            None
        }
    } else {
        match scan_field(s.skip(1)) {
            Some(p) => Some((seq![s[0]] + p.0, p.1)),
            None => None,
        }
    }
}

/// Parse a whole frame: the `(pool, action)` pair it carries, or nothing if
/// `s` is not exactly a canonical frame.
pub open spec fn parse_frame(s: Seq<u8>) -> Option<(Seq<u8>, Seq<u8>)> {
    if s.len() < 9 || s.subrange(0, 9) != frame_prefix() {
        None
    } else {
        match scan_field(s.skip(9)) {
            Some(p1) => if p1.1.len() < 11 || p1.1.subrange(0, 11) != frame_mid() {
                None
            } else {
                match scan_field(p1.1.skip(11)) {
                    Some(p2) => if p2.1 == seq![RBRACE] {
                        Some((p1.0, p2.0))
                    } else {
                        None
                    },
                    None => None,
                }
            },
            None => None,
        }
    }
}

/// Scanning what the escaper wrote, plus a closing quote, recovers the
/// field and the rest exactly.
pub proof fn lemma_scan_escaped(f: Seq<u8>, rest: Seq<u8>)
    ensures
        scan_field(escaped(f) + seq![QUOTE] + rest) == Some((f, rest)),
    decreases f.len(),
{
    let s = escaped(f) + seq![QUOTE] + rest;
    if f.len() == 0 {
        assert(s[0] == QUOTE);
        assert(s.skip(1) =~= rest);
        assert(f =~= Seq::<u8>::empty());
    } else {
        let b = f[0];
        lemma_scan_escaped(f.skip(1), rest);
        if b == QUOTE || b == BACKSLASH {
            assert(s[0] == BACKSLASH);
            assert(s[1] == b);
            assert(s.skip(2) =~= escaped(f.skip(1)) + seq![QUOTE] + rest);
            assert(seq![b] + f.skip(1) =~= f);
        } else {
            assert(s[0] == b);
            assert(s.skip(1) =~= escaped(f.skip(1)) + seq![QUOTE] + rest);
            assert(seq![b] + f.skip(1) =~= f);
        }
    }
}

/// A successful scan came from exactly one escaped field and rest.
pub proof fn lemma_scan_sound(s: Seq<u8>)
    ensures
        scan_field(s) matches Some(p) ==> s == escaped(p.0) + seq![QUOTE] + p.1,
    decreases s.len(),
{
    if s.len() == 0 {
    } else if s[0] == QUOTE {
        let p = scan_field(s).unwrap();
        assert(s =~= escaped(p.0) + seq![QUOTE] + p.1);
    } else if s[0] == BACKSLASH {
        if s.len() >= 2 && (s[1] == QUOTE || s[1] == BACKSLASH) {
            lemma_scan_sound(s.skip(2));
            if scan_field(s.skip(2)) is Some {
                let q = scan_field(s.skip(2)).unwrap();
                let p = scan_field(s).unwrap();
                assert(s.skip(2) == escaped(q.0) + seq![QUOTE] + q.1);
                assert(p.1 == q.1);
                assert(p.0 == seq![s[1]] + q.0);
                assert(p.0[0] == s[1]);
                assert(p.0.skip(1) =~= q.0);
                assert(escaped(p.0) == escape_byte(p.0[0]) + escaped(p.0.skip(1)));
                assert(escaped(p.0) =~= seq![BACKSLASH, s[1]] + escaped(q.0));
                assert(s =~= seq![BACKSLASH, s[1]] + s.skip(2));
                assert(escaped(p.0) + seq![QUOTE] + p.1 =~= seq![BACKSLASH, s[1]] + (escaped(q.0)
                    + seq![QUOTE] + q.1));
                assert(s == escaped(p.0) + seq![QUOTE] + p.1);
            }
        }
    } else {
        lemma_scan_sound(s.skip(1));
        if scan_field(s.skip(1)) is Some {
            let q = scan_field(s.skip(1)).unwrap();
            let p = scan_field(s).unwrap();
            assert(s.skip(1) == escaped(q.0) + seq![QUOTE] + q.1);
            assert(p.1 == q.1);
            assert(p.0 == seq![s[0]] + q.0);
            assert(p.0[0] == s[0]);
            assert(p.0.skip(1) =~= q.0);
            assert(escaped(p.0) == escape_byte(p.0[0]) + escaped(p.0.skip(1)));
            assert(escaped(p.0) =~= seq![s[0]] + escaped(q.0));
            assert(s =~= seq![s[0]] + s.skip(1));
            assert(escaped(p.0) + seq![QUOTE] + p.1 =~= seq![s[0]] + (escaped(q.0) + seq![QUOTE]
                + q.1));
            assert(s == escaped(p.0) + seq![QUOTE] + p.1);
        }
    }
}

/// Round trip: parsing an encoded frame gives the pair back.
pub proof fn lemma_frame_round_trip(pool: Seq<u8>, action: Seq<u8>)
    ensures
        parse_frame(frame_spec(pool, action)) == Some((pool, action)),
{
    let s = frame_spec(pool, action);
    let tail1 = frame_mid() + escaped(action) + seq![QUOTE, RBRACE];
    assert(s.subrange(0, 9) =~= frame_prefix());
    assert(s.skip(9) =~= escaped(pool) + seq![QUOTE] + tail1);
    lemma_scan_escaped(pool, tail1);
    assert(tail1.subrange(0, 11) =~= frame_mid());
    assert(tail1.skip(11) =~= escaped(action) + seq![QUOTE] + seq![RBRACE]);
    lemma_scan_escaped(action, seq![RBRACE]);
}

/// Soundness: a parsed pair re-encodes to exactly the input.
pub proof fn lemma_parse_sound(s: Seq<u8>)
    ensures
        parse_frame(s) matches Some(p) ==> s == frame_spec(p.0, p.1),
{
    if parse_frame(s) is Some {
        let p1 = scan_field(s.skip(9)).unwrap();
        let p2 = scan_field(p1.1.skip(11)).unwrap();
        lemma_scan_sound(s.skip(9));
        lemma_scan_sound(p1.1.skip(11));
        assert(s.skip(9) == escaped(p1.0) + seq![QUOTE] + p1.1);
        assert(p1.1.skip(11) == escaped(p2.0) + seq![QUOTE] + p2.1);
        assert(p1.1 =~= p1.1.subrange(0, 11) + p1.1.skip(11));
        assert(s =~= s.subrange(0, 9) + s.skip(9));
        assert(s =~= frame_spec(p1.0, p2.0));
    }
}

/// A frame pins its pair down: encoding is injective.
pub proof fn lemma_frame_injective(p1: Seq<u8>, a1: Seq<u8>, p2: Seq<u8>, a2: Seq<u8>)
    ensures
        frame_spec(p1, a1) == frame_spec(p2, a2) ==> p1 == p2 && a1 == a2,
{
    if frame_spec(p1, a1) == frame_spec(p2, a2) {
        lemma_frame_round_trip(p1, a1);
        lemma_frame_round_trip(p2, a2);
    }
}

pub proof fn lemma_escaped_push(s: Seq<u8>, b: u8)
    ensures
        escaped(s.push(b)) == escaped(s) + escape_byte(b),
    decreases s.len(),
{
    if s.len() == 0 {
        assert(s.push(b)[0] == b);
        assert(s =~= Seq::<u8>::empty());
        assert(s.push(b).skip(1) =~= s);
        assert(escaped(s.push(b)) =~= escaped(s) + escape_byte(b));
    } else {
        assert(s.push(b).skip(1) =~= s.skip(1).push(b));
        lemma_escaped_push(s.skip(1), b);
        assert(escaped(s.push(b)) =~= escaped(s) + escape_byte(b));
    }
}

/// Prepend an already-decoded accumulator onto a scan outcome.
pub open spec fn scan_with(acc: Seq<u8>, r: Option<(Seq<u8>, Seq<u8>)>) -> Option<
    (Seq<u8>, Seq<u8>),
> {
    match r {
        Some(p) => Some((acc + p.0, p.1)),
        None => None,
    }
}

proof fn lemma_scan_with_assoc(a: Seq<u8>, b: Seq<u8>, r: Option<(Seq<u8>, Seq<u8>)>)
    ensures
        scan_with(a, scan_with(b, r)) == scan_with(a + b, r),
{
    match r {
        Some(p) => {
            assert(a + (b + p.0) =~= (a + b) + p.0);
        },
        None => {},
    }
}

/// No byte sequence other than a canonical frame parses.
pub proof fn lemma_no_frame(s: Seq<u8>)
    requires
        parse_frame(s) is None,
    ensures
        forall|p: Seq<u8>, a: Seq<u8>| s != frame_spec(p, a),
{
    assert forall|p: Seq<u8>, a: Seq<u8>| s != frame_spec(p, a) by {
        if s == frame_spec(p, a) {
            lemma_frame_round_trip(p, a);
            assert(false);
        }
    }
}

/// A fresh byte-for-byte copy of `src`.
pub fn copy_bytes(src: &Vec<u8>) -> (r: Vec<u8>)
    ensures
        r@ == src@,
{
    let mut r: Vec<u8> = Vec::new();
    let n = src.len();
    let mut i: usize = 0;
    while i < n
        invariant
            i <= n,
            n == src@.len(),
            r@ == src@.take(i as int),
        decreases n - i,
    {
        r.push(src[i]);
        proof {
            assert(r@ =~= src@.take(i + 1 as int));
        }
        i += 1;
    }
    proof {
        assert(src@.take(n as int) =~= src@);
    }
    r
}

/// Append the escaped form of `data` to `out`.
fn push_escaped(out: &mut Vec<u8>, data: &Vec<u8>)
    ensures
        final(out)@ == old(out)@ + escaped(data@),
{
    let n = data.len();
    let mut i: usize = 0;
    while i < n
        invariant
            i <= n,
            n == data@.len(),
            out@ == old(out)@ + escaped(data@.take(i as int)),
        decreases n - i,
    {
        let b = data[i];
        proof {
            assert(data@.take(i + 1 as int) =~= data@.take(i as int).push(b));
            lemma_escaped_push(data@.take(i as int), b);
        }
        if b == QUOTE || b == BACKSLASH {
            out.push(BACKSLASH);
            out.push(b);
        } else {
            out.push(b);
        }
        proof {
            assert(out@ =~= old(out)@ + escaped(data@.take(i + 1 as int)));
        }
        i += 1;
    }
    proof {
        assert(data@.take(n as int) =~= data@);
    }
}

/// Serialize one `(pool, action)` pair into its wire frame.
pub fn encode_frame(pool: &Vec<u8>, action: &Vec<u8>) -> (r: Vec<u8>)
    ensures
        r@ == frame_spec(pool@, action@),
{
    let mut r: Vec<u8> = Vec::new();
    r.push(123);
    r.push(34);
    r.push(112);
    r.push(111);
    r.push(111);
    r.push(108);
    r.push(34);
    r.push(58);
    r.push(34);
    proof {
        assert(r@ =~= frame_prefix());
    }
    push_escaped(&mut r, pool);
    r.push(QUOTE);
    r.push(44);
    r.push(34);
    r.push(97);
    r.push(99);
    r.push(116);
    r.push(105);
    r.push(111);
    r.push(110);
    r.push(34);
    r.push(58);
    r.push(34);
    proof {
        assert(r@ =~= frame_prefix() + escaped(pool@) + seq![QUOTE] + frame_mid());
    }
    push_escaped(&mut r, action);
    r.push(QUOTE);
    r.push(RBRACE);
    proof {
        assert(r@ =~= frame_spec(pool@, action@));
    }
    r
}

/// Whether the bytes of `frame_prefix` stand at `pos` of `s`.
fn match_prefix(s: &Vec<u8>, pos: usize) -> (r: bool)
    requires
        pos <= s@.len(),
    ensures
        r <==> (pos + 9 <= s@.len() && s@.subrange(pos as int, pos + 9) == frame_prefix()),
{
    if s.len() - pos < 9 {
        return false;
    }
    let r = s[pos] == 123 && s[pos + 1] == 34 && s[pos + 2] == 112 && s[pos + 3] == 111 && s[pos
        + 4] == 111 && s[pos + 5] == 108 && s[pos + 6] == 34 && s[pos + 7] == 58 && s[pos + 8]
        == 34;
    proof {
        let sub = s@.subrange(pos as int, pos + 9);
        if r {
            assert(sub =~= frame_prefix());
        }
        if sub == frame_prefix() {
            assert(s@[pos as int] == sub[0]);
            assert(s@[pos + 1] == sub[1]);
            assert(s@[pos + 2] == sub[2]);
            assert(s@[pos + 3] == sub[3]);
            assert(s@[pos + 4] == sub[4]);
            assert(s@[pos + 5] == sub[5]);
            assert(s@[pos + 6] == sub[6]);
            assert(s@[pos + 7] == sub[7]);
            assert(s@[pos + 8] == sub[8]);
        }
    }
    r
}

/// Whether the bytes of `frame_mid` stand at `pos` of `s`.
fn match_mid(s: &Vec<u8>, pos: usize) -> (r: bool)
    requires
        pos <= s@.len(),
    ensures
        r <==> (pos + 11 <= s@.len() && s@.subrange(pos as int, pos + 11) == frame_mid()),
{
    if s.len() - pos < 11 {
        return false;
    }
    let r = s[pos] == 44 && s[pos + 1] == 34 && s[pos + 2] == 97 && s[pos + 3] == 99 && s[pos + 4]
        == 116 && s[pos + 5] == 105 && s[pos + 6] == 111 && s[pos + 7] == 110 && s[pos + 8] == 34
        && s[pos + 9] == 58 && s[pos + 10] == 34;
    proof {
        let sub = s@.subrange(pos as int, pos + 11);
        if r {
            assert(sub =~= frame_mid());
        }
        if sub == frame_mid() {
            assert(s@[pos as int] == sub[0]);
            assert(s@[pos + 1] == sub[1]);
            assert(s@[pos + 2] == sub[2]);
            assert(s@[pos + 3] == sub[3]);
            assert(s@[pos + 4] == sub[4]);
            assert(s@[pos + 5] == sub[5]);
            assert(s@[pos + 6] == sub[6]);
            assert(s@[pos + 7] == sub[7]);
            assert(s@[pos + 8] == sub[8]);
            assert(s@[pos + 9] == sub[9]);
            assert(s@[pos + 10] == sub[10]);
        }
    }
    r
}

/// Scan one escaped field of `s` from `pos`: the decoded field and the
/// position just past its closing quote.
fn scan_field_exec(s: &Vec<u8>, pos: usize) -> (r: Option<(Vec<u8>, usize)>)
    requires
        pos <= s@.len(),
    ensures
        match r {
            Some(fe) => fe.1 <= s@.len() && scan_field(s@.skip(pos as int)) == Some(
                (fe.0@, s@.skip(fe.1 as int)),
            ),
            None => scan_field(s@.skip(pos as int)) is None,
        },
{
    let n = s.len();
    let mut i: usize = pos;
    let mut field: Vec<u8> = Vec::new();
    while i < n
        invariant
            pos <= i <= n,
            n == s@.len(),
            scan_field(s@.skip(pos as int)) == scan_with(field@, scan_field(s@.skip(i as int))),
        decreases n - i,
    {
        let b = s[i];
        proof {
            assert(s@.skip(i as int)[0] == b);
        }
        if b == QUOTE {
            proof {
                assert(s@.skip(i as int).skip(1) =~= s@.skip(i + 1));
                assert(scan_field(s@.skip(i as int)) == Some(
                    (Seq::<u8>::empty(), s@.skip(i + 1)),
                ));
                assert(field@ + Seq::<u8>::empty() =~= field@);
            }
            return Some((field, i + 1));
        } else if b == BACKSLASH {
            if i + 1 < n && (s[i + 1] == QUOTE || s[i + 1] == BACKSLASH) {
                let c = s[i + 1];
                let ghost field0 = field@;
                proof {
                    assert(s@.skip(i as int)[1] == c);
                    assert(s@.skip(i as int).skip(2) =~= s@.skip(i + 2));
                    assert(scan_field(s@.skip(i as int)) == scan_with(
                        seq![c],
                        scan_field(s@.skip(i + 2)),
                    ));
                    lemma_scan_with_assoc(field0, seq![c], scan_field(s@.skip(i + 2)));
                    assert(field0.push(c) =~= field0 + seq![c]);
                }
                field.push(c);
                i += 2;
            } else {
                proof {
                    assert(scan_field(s@.skip(i as int)) is None);
                }
                return None;
            }
        } else {
            let ghost field0 = field@;
            proof {
                assert(s@.skip(i as int).skip(1) =~= s@.skip(i + 1));
                assert(scan_field(s@.skip(i as int)) == scan_with(
                    seq![b],
                    scan_field(s@.skip(i + 1)),
                ));
                lemma_scan_with_assoc(field0, seq![b], scan_field(s@.skip(i + 1)));
                assert(field0.push(b) =~= field0 + seq![b]);
            }
            field.push(b);
            i += 1;
        }
    }
    proof {
        assert(s@.skip(i as int) =~= Seq::<u8>::empty());
        assert(scan_field(s@.skip(i as int)) is None);
    }
    None
}

/// Decode one wire frame. Exactly the canonical frames the encoder
/// produces are accepted: a successful decode returns the one pair whose
/// encoding is `s`, and a refusal means no pair encodes to `s`.
pub fn decode_frame(s: &Vec<u8>) -> (r: Option<(Vec<u8>, Vec<u8>)>)
    ensures
        match r {
            Some(pa) => parse_frame(s@) == Some((pa.0@, pa.1@)) && s@ == frame_spec(
                pa.0@,
                pa.1@,
            ),
            None => parse_frame(s@) is None && forall|p: Seq<u8>, a: Seq<u8>| s@ != frame_spec(
                p,
                a,
            ),
        },
{
    if !match_prefix(s, 0) {
        proof {
            assert(parse_frame(s@) is None);
            lemma_no_frame(s@);
        }
        return None;
    }
    match scan_field_exec(s, 9) {
        None => {
            proof {
                assert(parse_frame(s@) is None);
                lemma_no_frame(s@);
            }
            None
        },
        Some((pool, p1)) => {
            proof {
                assert(scan_field(s@.skip(9)) == Some((pool@, s@.skip(p1 as int))));
            }
            if !match_mid(s, p1) {
                proof {
                    assert(s@.skip(p1 as int).len() == s@.len() - p1);
                    if s@.skip(p1 as int).len() >= 11 {
                        assert(s@.skip(p1 as int).subrange(0, 11) =~= s@.subrange(
                            p1 as int,
                            p1 + 11,
                        ));
                    }
                    assert(parse_frame(s@) is None);
                    lemma_no_frame(s@);
                }
                return None;
            }
            proof {
                assert(s@.skip(p1 as int).subrange(0, 11) =~= s@.subrange(p1 as int, p1 + 11));
            }
            let n2 = s.len();
            proof {
                assert(p1 + 11 <= n2);
            }
            match scan_field_exec(s, p1 + 11) {
                None => {
                    proof {
                        assert(s@.skip(p1 as int).skip(11) =~= s@.skip(p1 + 11));
                        assert(parse_frame(s@) is None);
                        lemma_no_frame(s@);
                    }
                    None
                },
                Some((action, p2)) => {
                    proof {
                        assert(s@.skip(p1 as int).skip(11) =~= s@.skip(p1 + 11));
                        assert(scan_field(s@.skip(p1 as int).skip(11)) == Some(
                            (action@, s@.skip(p2 as int)),
                        ));
                    }
                    if s.len() - p2 == 1 && s[p2] == RBRACE {
                        proof {
                            assert(s@.skip(p2 as int) =~= seq![RBRACE]);
                            assert(parse_frame(s@) == Some((pool@, action@)));
                            lemma_parse_sound(s@);
                        }
                        Some((pool, action))
                    } else {
                        proof {
                            if s@.skip(p2 as int) == seq![RBRACE] {
                                assert(s@.skip(p2 as int).len() == 1);
                                assert(s@.skip(p2 as int)[0] == RBRACE);
                                assert(s@[p2 as int] == RBRACE);
                            }
                            assert(parse_frame(s@) is None);
                            lemma_no_frame(s@);
                        }
                        None
                    }
                },
            }
        },
    }
}

} // verus!
