//! The persistence format of a trained model.
//!
//! A model freezes to a self-contained byte string: a version tag, the
//! author list, the token vocabulary with its count rows, the author
//! totals and the grand total.  Integers are little-endian; strings are
//! UTF-8 with a byte-length prefix.  Decoding validates the model
//! invariant, so a loaded model is as trustworthy as a trained one.

use vstd::prelude::*;

use vstd::utf8::{encode_utf8, decode_utf8, valid_utf8};

use crate::model::ModelView;

verus! {

/// The version tag that opens every encoded model.
pub const FORMAT_VERSION: u8 = 1;

/// Little-endian bytes of a `u32`.
pub open spec fn enc_u32(x: u32) -> Seq<u8> {
    seq![
        (x % 256) as u8,
        ((x / 256) % 256) as u8,
        ((x / 65536) % 256) as u8,
        ((x / 16777216) % 256) as u8,
    ]
}

/// Little-endian bytes of a `u64`.
pub open spec fn enc_u64(x: u64) -> Seq<u8> {
    seq![
        (x % 256) as u8,
        ((x / 256) % 256) as u8,
        ((x / 65536) % 256) as u8,
        ((x / 16777216) % 256) as u8,
        ((x / 4294967296) % 256) as u8,
        ((x / 1099511627776) % 256) as u8,
        ((x / 281474976710656) % 256) as u8,
        ((x / 72057594037927936) % 256) as u8,
    ]
}

/// A string: its UTF-8 byte length, then its UTF-8 bytes.
pub open spec fn enc_str(s: Seq<char>) -> Seq<u8> {
    enc_u64(encode_utf8(s).len() as u64) + encode_utf8(s)
}

/// A list of strings, in order.
pub open spec fn enc_str_list(ss: Seq<Seq<char>>) -> Seq<u8>
    decreases ss.len(),
{
    if ss.len() == 0 {
        Seq::empty()
    } else {
        enc_str_list(ss.drop_last()) + enc_str(ss.last())
    }
}

/// A count row, in order.
pub open spec fn enc_row(row: Seq<u32>) -> Seq<u8>
    decreases row.len(),
{
    if row.len() == 0 {
        Seq::empty()
    } else {
        enc_row(row.drop_last()) + enc_u32(row.last())
    }
}

/// The vocabulary: each token followed by its count row.
pub open spec fn enc_tokens(toks: Seq<Seq<char>>, rows: Seq<Seq<u32>>) -> Seq<u8>
    decreases toks.len(),
{
    if toks.len() == 0 {
        Seq::empty()
    } else {
        enc_tokens(toks.drop_last(), rows.drop_last()) + enc_str(toks.last()) + enc_row(
            rows.last(),
        )
    }
}

/// The whole encoded model.
pub open spec fn spec_encode(v: ModelView) -> Seq<u8> {
    seq![FORMAT_VERSION] + enc_u64(v.authors.len() as u64) + enc_str_list(v.authors) + enc_u64(
        v.tokens.len() as u64,
    ) + enc_tokens(v.tokens, v.rows) + enc_row(v.totals) + enc_u32(v.grand)
}

/// The ghost lengths a model must stay under for its encoding to be
/// parsed back; every model held in memory satisfies this.
pub open spec fn encodable(v: ModelView) -> bool {
    &&& v.authors.len() <= u64::MAX
    &&& v.tokens.len() <= u64::MAX
    &&& forall|i: int|
        0 <= i < v.authors.len() ==> encode_utf8(#[trigger] v.authors[i]).len() <= u64::MAX
    &&& forall|i: int|
        0 <= i < v.tokens.len() ==> encode_utf8(#[trigger] v.tokens[i]).len() <= u64::MAX
}

/// Append the little-endian bytes of a `u32`.
pub(crate) fn push_u32(out: &mut Vec<u8>, x: u32)
    ensures
        final(out)@ == old(out)@ + enc_u32(x),
{
    let ghost before = out@;
    out.push((x % 256) as u8);
    out.push(((x / 256) % 256) as u8);
    out.push(((x / 65536) % 256) as u8);
    out.push(((x / 16777216) % 256) as u8);
    proof {
        assert(out@ =~= before + enc_u32(x));
    }
}

/// Append the little-endian bytes of a `u64`.
pub(crate) fn push_u64(out: &mut Vec<u8>, x: u64)
    ensures
        final(out)@ == old(out)@ + enc_u64(x),
{
    let ghost before = out@;
    out.push((x % 256) as u8);
    out.push(((x / 256) % 256) as u8);
    out.push(((x / 65536) % 256) as u8);
    out.push(((x / 16777216) % 256) as u8);
    out.push(((x / 4294967296) % 256) as u8);
    out.push(((x / 1099511627776) % 256) as u8);
    out.push(((x / 281474976710656) % 256) as u8);
    out.push(((x / 72057594037927936) % 256) as u8);
    proof {
        assert(out@ =~= before + enc_u64(x));
    }
}

/// Append a length-prefixed UTF-8 string.
pub(crate) fn push_str(out: &mut Vec<u8>, s: &String)
    ensures
        final(out)@ == old(out)@ + enc_str(s@),
        encode_utf8(s@).len() <= u64::MAX,
{
    let ghost before = out@;
    let mut bytes = s.as_str().as_bytes_vec();
    let n = bytes.len();
    push_u64(out, n as u64);
    out.append(&mut bytes);
    proof {
        assert(out@ =~= before + enc_str(s@));
    }
}

/// Append a count row.
pub(crate) fn push_row(out: &mut Vec<u8>, row: &Vec<u32>)
    ensures
        final(out)@ == old(out)@ + enc_row(row@),
{
    let ghost before = out@;
    let mut i: usize = 0;
    proof {
        assert(enc_row(row@.take(0)) =~= Seq::<u8>::empty());
        assert(out@ =~= before + enc_row(row@.take(0)));
    }
    while i < row.len()
        invariant
            0 <= i <= row@.len(),
            out@ == before + enc_row(row@.take(i as int)),
        decreases row@.len() - i,
    {
        let x = row[i];
        push_u32(out, x);
        proof {
            assert(row@.take(i + 1).drop_last() =~= row@.take(i as int));
            assert(row@.take(i + 1).last() == row@[i as int]);
        }
        i = i + 1;
    }
    proof {
        assert(row@.take(row@.len() as int) =~= row@);
    }
}

/// Encode the parts of a model.
pub(crate) fn encode_parts(
    authors: &Vec<String>,
    tokens: &Vec<String>,
    rows: &Vec<Vec<u32>>,
    totals: &Vec<u32>,
    grand: u32,
) -> (r: Vec<u8>)
    requires
        tokens@.len() == rows@.len(),
    ensures
        r@ == spec_encode(
            ModelView {
                authors: authors.deep_view(),
                tokens: tokens.deep_view(),
                rows: rows.deep_view(),
                totals: totals@,
                grand: grand,
            },
        ),
        encodable(
            ModelView {
                authors: authors.deep_view(),
                tokens: tokens.deep_view(),
                rows: rows.deep_view(),
                totals: totals@,
                grand: grand,
            },
        ),
{
    let ghost av = authors.deep_view();
    let ghost tv = tokens.deep_view();
    let ghost rv = rows.deep_view();
    let mut out: Vec<u8> = Vec::new();
    out.push(FORMAT_VERSION);
    push_u64(&mut out, authors.len() as u64);
    let ghost head = out@;
    let mut i: usize = 0;
    proof {
        assert(enc_str_list(av.take(0)) =~= Seq::<u8>::empty());
        assert(out@ =~= head + enc_str_list(av.take(0)));
    }
    while i < authors.len()
        invariant
            0 <= i <= authors@.len(),
            av == authors.deep_view(),
            av.len() == authors@.len(),
            out@ == head + enc_str_list(av.take(i as int)),
            forall|k: int| 0 <= k < i ==> encode_utf8(#[trigger] av[k]).len() <= u64::MAX,
        decreases authors@.len() - i,
    {
        let s = &authors[i];
        push_str(&mut out, s);
        proof {
            assert(av.take(i + 1).drop_last() =~= av.take(i as int));
            assert(av.take(i + 1).last() == av[i as int]);
            assert(av[i as int] == authors@[i as int]@);
        }
        i = i + 1;
    }
    proof {
        assert(av.take(av.len() as int) =~= av);
    }
    push_u64(&mut out, tokens.len() as u64);
    let ghost head2 = out@;
    let mut j: usize = 0;
    proof {
        assert(enc_tokens(tv.take(0), rv.take(0)) =~= Seq::<u8>::empty());
        assert(out@ =~= head2 + enc_tokens(tv.take(0), rv.take(0)));
    }
    while j < tokens.len()
        invariant
            0 <= j <= tokens@.len(),
            tv == tokens.deep_view(),
            rv == rows.deep_view(),
            tv.len() == tokens@.len(),
            rv.len() == tokens@.len(),
            out@ == head2 + enc_tokens(tv.take(j as int), rv.take(j as int)),
            forall|k: int| 0 <= k < j ==> encode_utf8(#[trigger] tv[k]).len() <= u64::MAX,
        decreases tokens@.len() - j,
    {
        let s = &tokens[j];
        push_str(&mut out, s);
        let row = &rows[j];
        push_row(&mut out, row);
        proof {
            assert(tv.take(j + 1).drop_last() =~= tv.take(j as int));
            assert(rv.take(j + 1).drop_last() =~= rv.take(j as int));
            assert(tv.take(j + 1).last() == tv[j as int]);
            assert(rv.take(j + 1).last() == rv[j as int]);
            assert(tv[j as int] == tokens@[j as int]@);
            assert(rv[j as int] == rows@[j as int]@);
        }
        j = j + 1;
    }
    proof {
        assert(tv.take(tv.len() as int) =~= tv);
        assert(rv.take(rv.len() as int) =~= rv);
    }
    push_row(&mut out, totals);
    push_u32(&mut out, grand);
    out
}

/// Value of four little-endian bytes.
pub open spec fn dec_u32_at(b: Seq<u8>, p: int) -> int {
    b[p] + 256 * b[p + 1] + 65536 * b[p + 2] + 16777216 * b[p + 3]
}

/// Value of eight little-endian bytes.
pub open spec fn dec_u64_at(b: Seq<u8>, p: int) -> int {
    b[p] + 256 * b[p + 1] + 65536 * b[p + 2] + 16777216 * b[p + 3] + 4294967296 * b[p + 4]
        + 1099511627776 * b[p + 5] + 281474976710656 * b[p + 6] + 72057594037927936 * b[p + 7]
}

/// Parse a `u64` at `p`.
pub open spec fn parse_u64(b: Seq<u8>, p: int) -> Option<(int, int)> {
    if p + 8 <= b.len() {
        Some((dec_u64_at(b, p), p + 8))
    } else {
        None
    }
}

/// Parse a `u32` at `p`.
pub open spec fn parse_u32(b: Seq<u8>, p: int) -> Option<(int, int)> {
    if p + 4 <= b.len() {
        Some((dec_u32_at(b, p), p + 4))
    } else {
        None
    }
}

/// Parse a length-prefixed UTF-8 string at `p`.
pub open spec fn parse_str(b: Seq<u8>, p: int) -> Option<(Seq<char>, int)> {
    match parse_u64(b, p) {
        Some((n, p2)) => {
            if p2 + n <= b.len() && valid_utf8(b.subrange(p2, p2 + n)) {
                Some((decode_utf8(b.subrange(p2, p2 + n)), p2 + n))
            } else {
                None
            }
        },
        None => None,
    }
}

/// Parse `cnt` strings in a row.
pub open spec fn parse_strs(b: Seq<u8>, p: int, cnt: nat) -> Option<(Seq<Seq<char>>, int)>
    decreases cnt,
{
    if cnt == 0 {
        Some((Seq::empty(), p))
    } else {
        match parse_str(b, p) {
            Some((s, p2)) => match parse_strs(b, p2, (cnt - 1) as nat) {
                Some((ss, p3)) => Some((seq![s] + ss, p3)),
                None => None,
            },
            None => None,
        }
    }
}

/// Parse a row of `n` counts.
pub open spec fn parse_row(b: Seq<u8>, p: int, n: nat) -> Option<(Seq<u32>, int)>
    decreases n,
{
    if n == 0 {
        Some((Seq::empty(), p))
    } else {
        match parse_u32(b, p) {
            Some((x, p2)) => match parse_row(b, p2, (n - 1) as nat) {
                Some((row, p3)) => Some((seq![x as u32] + row, p3)),
                None => None,
            },
            None => None,
        }
    }
}

/// Parse `cnt` tokens, each a string followed by a row of `acount`
/// counts.
pub open spec fn parse_tokens(b: Seq<u8>, p: int, cnt: nat, acount: nat) -> Option<
    ((Seq<Seq<char>>, Seq<Seq<u32>>), int),
>
    decreases cnt,
{
    if cnt == 0 {
        Some(((Seq::empty(), Seq::empty()), p))
    } else {
        match parse_str(b, p) {
            Some((s, p2)) => match parse_row(b, p2, acount) {
                Some((row, p3)) => match parse_tokens(b, p3, (cnt - 1) as nat, acount) {
                    Some(((ss, rr), p4)) => Some(((seq![s] + ss, seq![row] + rr), p4)),
                    None => None,
                },
                None => None,
            },
            None => None,
        }
    }
}

/// The model a byte string decodes to, if it is a well-formed encoding
/// of a well-formed model; `None` otherwise.
pub open spec fn spec_decode(b: Seq<u8>) -> Option<ModelView> {
    if b.len() >= 1 && b[0] == FORMAT_VERSION {
        match parse_u64(b, 1) {
            Some((na, p1)) => match parse_strs(b, p1, na as nat) {
                Some((authors, p2)) => match parse_u64(b, p2) {
                    Some((nt, p3)) => match parse_tokens(b, p3, nt as nat, na as nat) {
                        Some(((tokens, rows), p4)) => match parse_row(b, p4, na as nat) {
                            Some((totals, p5)) => match parse_u32(b, p5) {
                                Some((grand, p6)) => {
                                    if p6 == b.len() {
                                        let v = ModelView {
                                            authors,
                                            tokens,
                                            rows,
                                            totals,
                                            grand: grand as u32,
                                        };
                                        if v.wf() {
                                            Some(v)
                                        } else {
                                            None
                                        }
                                    } else {
                                        None
                                    }
                                },
                                None => None,
                            },
                            None => None,
                        },
                        None => None,
                    },
                    None => None,
                },
                None => None,
            },
            None => None,
        }
    } else {
        None
    }
}

/// Relies on `String::from_utf8`: it succeeds exactly on valid UTF-8
/// and yields the characters those bytes encode.
#[verifier::external_body]
fn string_from_utf8(v: Vec<u8>) -> (r: Option<String>)
    ensures
        match r {
            Some(s) => valid_utf8(v@) && s@ == decode_utf8(v@),
            None => !valid_utf8(v@),
        },
{
    match String::from_utf8(v) {
        Ok(s) => Some(s),
        Err(_) => None,
    }
}

/// Read a `u64` at `p`, executable.
fn read_u64(b: &Vec<u8>, p: usize) -> (r: Option<(u64, usize)>)
    requires
        p <= b@.len(),
    ensures
        match r {
            Some((x, p2)) => parse_u64(b@, p as int) == Some((x as int, p2 as int)) && p < p2
                <= b@.len(),
            None => parse_u64(b@, p as int) is None,
        },
{
    if b.len() - p >= 8 {
        let x: u64 = (b[p] as u64) + 256 * (b[p + 1] as u64) + 65536 * (b[p + 2] as u64)
            + 16777216 * (b[p + 3] as u64) + 4294967296 * (b[p + 4] as u64) + 1099511627776 * (b[p
            + 5] as u64) + 281474976710656 * (b[p + 6] as u64) + 72057594037927936 * (b[p + 7]
            as u64);
        Some((x, p + 8))
    } else {
        None
    }
}

/// Read a `u32` at `p`, executable.
fn read_u32(b: &Vec<u8>, p: usize) -> (r: Option<(u32, usize)>)
    requires
        p <= b@.len(),
    ensures
        match r {
            Some((x, p2)) => parse_u32(b@, p as int) == Some((x as int, p2 as int)) && p < p2
                <= b@.len(),
            None => parse_u32(b@, p as int) is None,
        },
{
    if b.len() - p >= 4 {
        let x: u32 = (b[p] as u32) + 256 * (b[p + 1] as u32) + 65536 * (b[p + 2] as u32)
            + 16777216 * (b[p + 3] as u32);
        Some((x, p + 4))
    } else {
        None
    }
}

/// Read a length-prefixed string at `p`, executable.
fn read_str(b: &Vec<u8>, p: usize) -> (r: Option<(String, usize)>)
    requires
        p <= b@.len(),
    ensures
        match r {
            Some((s, p2)) => parse_str(b@, p as int) == Some((s@, p2 as int)) && p < p2 <= b@.len(),
            None => parse_str(b@, p as int) is None,
        },
{
    match read_u64(b, p) {
        Some((n, p2)) => {
            if n > (b.len() - p2) as u64 {
                return None;
            }
            let n_us = n as usize;
            proof {
                assert(n_us as int == n as int);
                assert(p2 + n_us <= b@.len());
            }
            let mut bytes: Vec<u8> = Vec::new();
            let mut i: usize = 0;
            while i < n_us
                invariant
                    0 <= i <= n_us,
                    p2 + n_us <= b@.len(),
                    b@.len() <= usize::MAX,
                    bytes@ == b@.subrange(p2 as int, p2 + i),
                decreases n_us - i,
            {
                proof {
                    assert(p2 + i < b@.len());
                }
                let x = b[p2 + i];
                bytes.push(x);
                proof {
                    assert(b@.subrange(p2 as int, p2 + i + 1) =~= b@.subrange(p2 as int, p2 + i).push(
                        b@[p2 + i],
                    ));
                }
                i = i + 1;
            }
            match string_from_utf8(bytes) {
                Some(s) => Some((s, p2 + n_us)),
                None => None,
            }
        },
        None => None,
    }
}

proof fn lemma_dec_enc_u32(b: Seq<u8>, p: int, x: u32)
    requires
        0 <= p,
        p + 4 <= b.len(),
        b.subrange(p, p + 4) == enc_u32(x),
    ensures
        dec_u32_at(b, p) == x,
{
    let s = b.subrange(p, p + 4);
    assert(b[p] == s[0] && b[p + 1] == s[1] && b[p + 2] == s[2] && b[p + 3] == s[3]);
    let xi = x as int;
    vstd::arithmetic::div_mod::lemma_fundamental_div_mod(xi, 256);
    vstd::arithmetic::div_mod::lemma_fundamental_div_mod(xi / 256, 256);
    vstd::arithmetic::div_mod::lemma_fundamental_div_mod(xi / 65536, 256);
    vstd::arithmetic::div_mod::lemma_div_denominator(xi, 256, 256);
    vstd::arithmetic::div_mod::lemma_div_denominator(xi, 65536, 256);
    assert(xi / 16777216 < 256);
    vstd::arithmetic::div_mod::lemma_small_mod((xi / 16777216) as nat, 256);
}

proof fn lemma_dec_enc_u64(b: Seq<u8>, p: int, x: u64)
    requires
        0 <= p,
        p + 8 <= b.len(),
        b.subrange(p, p + 8) == enc_u64(x),
    ensures
        dec_u64_at(b, p) == x,
{
    let s = b.subrange(p, p + 8);
    assert(b[p] == s[0] && b[p + 1] == s[1] && b[p + 2] == s[2] && b[p + 3] == s[3] && b[p + 4]
        == s[4] && b[p + 5] == s[5] && b[p + 6] == s[6] && b[p + 7] == s[7]);
    let xi = x as int;
    vstd::arithmetic::div_mod::lemma_fundamental_div_mod(xi, 256);
    vstd::arithmetic::div_mod::lemma_fundamental_div_mod(xi / 256, 256);
    vstd::arithmetic::div_mod::lemma_fundamental_div_mod(xi / 65536, 256);
    vstd::arithmetic::div_mod::lemma_fundamental_div_mod(xi / 16777216, 256);
    vstd::arithmetic::div_mod::lemma_fundamental_div_mod(xi / 4294967296, 256);
    vstd::arithmetic::div_mod::lemma_fundamental_div_mod(xi / 1099511627776, 256);
    vstd::arithmetic::div_mod::lemma_fundamental_div_mod(xi / 281474976710656, 256);
    vstd::arithmetic::div_mod::lemma_div_denominator(xi, 256, 256);
    vstd::arithmetic::div_mod::lemma_div_denominator(xi, 65536, 256);
    vstd::arithmetic::div_mod::lemma_div_denominator(xi, 16777216, 256);
    vstd::arithmetic::div_mod::lemma_div_denominator(xi, 4294967296, 256);
    vstd::arithmetic::div_mod::lemma_div_denominator(xi, 1099511627776, 256);
    vstd::arithmetic::div_mod::lemma_div_denominator(xi, 281474976710656, 256);
    assert(xi / 72057594037927936 < 256);
    vstd::arithmetic::div_mod::lemma_small_mod((xi / 72057594037927936) as nat, 256);
}

proof fn lemma_parse_strs_snoc(b: Seq<u8>, p: int, i: nat)
    ensures
        parse_strs(b, p, i + 1) == (match parse_strs(b, p, i) {
            Some((ss, p2)) => match parse_str(b, p2) {
                Some((s, p3)) => Some((ss.push(s), p3)),
                None => None,
            },
            None => None::<(Seq<Seq<char>>, int)>,
        }),
    decreases i,
{
    reveal_with_fuel(parse_strs, 3);
    if i == 0 {
        match parse_str(b, p) {
            Some((s, p2)) => {
                assert(seq![s] + Seq::<Seq<char>>::empty() =~= Seq::<Seq<char>>::empty().push(s));
            },
            None => {},
        }
    } else {
        match parse_str(b, p) {
            Some((s0, p1)) => {
                lemma_parse_strs_snoc(b, p1, (i - 1) as nat);
                match parse_strs(b, p1, (i - 1) as nat) {
                    Some((ss, p2)) => {
                        match parse_str(b, p2) {
                            Some((s, p3)) => {
                                assert(seq![s0] + ss.push(s) =~= (seq![s0] + ss).push(s));
                            },
                            None => {},
                        }
                    },
                    None => {},
                }
            },
            None => {},
        }
    }
}

proof fn lemma_parse_strs_none_mono(b: Seq<u8>, p: int, i: nat, m: nat)
    requires
        parse_strs(b, p, i) is None,
        i <= m,
    ensures
        parse_strs(b, p, m) is None,
    decreases m - i,
{
    if m > i {
        lemma_parse_strs_snoc(b, p, (m - 1) as nat);
        lemma_parse_strs_none_mono(b, p, i, (m - 1) as nat);
    }
}

proof fn lemma_parse_row_snoc(b: Seq<u8>, p: int, i: nat)
    ensures
        parse_row(b, p, i + 1) == (match parse_row(b, p, i) {
            Some((row, p2)) => match parse_u32(b, p2) {
                Some((x, p3)) => Some((row.push(x as u32), p3)),
                None => None,
            },
            None => None::<(Seq<u32>, int)>,
        }),
    decreases i,
{
    reveal_with_fuel(parse_row, 3);
    if i == 0 {
        match parse_u32(b, p) {
            Some((x, p2)) => {
                assert(seq![x as u32] + Seq::<u32>::empty() =~= Seq::<u32>::empty().push(x as u32));
            },
            None => {},
        }
    } else {
        match parse_u32(b, p) {
            Some((x0, p1)) => {
                lemma_parse_row_snoc(b, p1, (i - 1) as nat);
                match parse_row(b, p1, (i - 1) as nat) {
                    Some((row, p2)) => {
                        match parse_u32(b, p2) {
                            Some((x, p3)) => {
                                assert(seq![x0 as u32] + row.push(x as u32) =~= (seq![x0 as u32]
                                    + row).push(x as u32));
                            },
                            None => {},
                        }
                    },
                    None => {},
                }
            },
            None => {},
        }
    }
}

proof fn lemma_parse_row_none_mono(b: Seq<u8>, p: int, i: nat, m: nat)
    requires
        parse_row(b, p, i) is None,
        i <= m,
    ensures
        parse_row(b, p, m) is None,
    decreases m - i,
{
    if m > i {
        lemma_parse_row_snoc(b, p, (m - 1) as nat);
        lemma_parse_row_none_mono(b, p, i, (m - 1) as nat);
    }
}

proof fn lemma_parse_tokens_snoc(b: Seq<u8>, p: int, i: nat, acount: nat)
    ensures
        parse_tokens(b, p, i + 1, acount) == (match parse_tokens(b, p, i, acount) {
            Some(((ss, rr), p2)) => match parse_str(b, p2) {
                Some((s, p3)) => match parse_row(b, p3, acount) {
                    Some((row, p4)) => Some(((ss.push(s), rr.push(row)), p4)),
                    None => None,
                },
                None => None,
            },
            None => None::<((Seq<Seq<char>>, Seq<Seq<u32>>), int)>,
        }),
    decreases i,
{
    reveal_with_fuel(parse_tokens, 3);
    if i == 0 {
        match parse_str(b, p) {
            Some((s, p2)) => {
                match parse_row(b, p2, acount) {
                    Some((row, p3)) => {
                        assert(seq![s] + Seq::<Seq<char>>::empty() =~= Seq::<
                            Seq<char>,
                        >::empty().push(s));
                        assert(seq![row] + Seq::<Seq<u32>>::empty() =~= Seq::<
                            Seq<u32>,
                        >::empty().push(row));
                    },
                    None => {},
                }
            },
            None => {},
        }
    } else {
        match parse_str(b, p) {
            Some((s0, p1)) => {
                match parse_row(b, p1, acount) {
                    Some((row0, p2)) => {
                        lemma_parse_tokens_snoc(b, p2, (i - 1) as nat, acount);
                        match parse_tokens(b, p2, (i - 1) as nat, acount) {
                            Some(((ss, rr), p3)) => {
                                match parse_str(b, p3) {
                                    Some((s, p4)) => {
                                        match parse_row(b, p4, acount) {
                                            Some((row, p5)) => {
                                                assert(seq![s0] + ss.push(s) =~= (seq![s0]
                                                    + ss).push(s));
                                                assert(seq![row0] + rr.push(row) =~= (seq![row0]
                                                    + rr).push(row));
                                            },
                                            None => {},
                                        }
                                    },
                                    None => {},
                                }
                            },
                            None => {},
                        }
                    },
                    None => {},
                }
            },
            None => {},
        }
    }
}

proof fn lemma_parse_tokens_none_mono(b: Seq<u8>, p: int, i: nat, m: nat, acount: nat)
    requires
        parse_tokens(b, p, i, acount) is None,
        i <= m,
    ensures
        parse_tokens(b, p, m, acount) is None,
    decreases m - i,
{
    if m > i {
        lemma_parse_tokens_snoc(b, p, (m - 1) as nat, acount);
        lemma_parse_tokens_none_mono(b, p, i, (m - 1) as nat, acount);
    }
}

/// Whether no two strings of the vector are equal.
fn all_unique(v: &Vec<String>) -> (r: bool)
    ensures
        r == crate::model::unique_seq(v.deep_view()),
{
    let ghost dv = v.deep_view();
    let mut i: usize = 0;
    while i < v.len()
        invariant
            0 <= i <= v@.len(),
            dv == v.deep_view(),
            dv.len() == v@.len(),
            forall|x: int, y: int| 0 <= x < y < i ==> dv[x] != dv[y],
        decreases v@.len() - i,
    {
        let mut j: usize = 0;
        while j < i
            invariant
                0 <= j <= i < v@.len(),
                dv == v.deep_view(),
                dv.len() == v@.len(),
                forall|x: int, y: int| 0 <= x < y < i ==> dv[x] != dv[y],
                forall|x: int| 0 <= x < j ==> dv[x] != dv[i as int],
            decreases i - j,
        {
            if v[j] == v[i] {
                proof {
                    assert(dv[j as int] == v@[j as int]@);
                    assert(dv[i as int] == v@[i as int]@);
                    assert(!crate::model::unique_seq(dv));
                }
                return false;
            }
            proof {
                assert(dv[j as int] == v@[j as int]@);
                assert(dv[i as int] == v@[i as int]@);
            }
            j = j + 1;
        }
        i = i + 1;
    }
    true
}

/// Sum of a count row, wide enough never to overflow.
fn row_sum_wide(row: &Vec<u32>) -> (r: u128)
    ensures
        r as int == crate::model::sum_row(row@),
{
    let mut acc: u128 = 0;
    let mut i: usize = 0;
    proof {
        assert(row@.take(0) =~= Seq::<u32>::empty());
    }
    while i < row.len()
        invariant
            0 <= i <= row@.len(),
            acc as int == crate::model::sum_row(row@.take(i as int)),
            acc <= (i as u128) * 0xffff_ffff,
        decreases row@.len() - i,
    {
        proof {
            assert(row@.take(i + 1).drop_last() =~= row@.take(i as int));
            assert(row@.take(i + 1).last() == row@[i as int]);
            assert((i as int + 1) * 0xffff_ffff == (i as int) * 0xffff_ffff + 0xffff_ffff)
                by (nonlinear_arith);
            assert((i as int) * 0xffff_ffff >= 0) by (nonlinear_arith)
                requires i >= 0;
            assert((i as int + 1) * 0xffff_ffff < 0x1_0000_0000_0000_0000_0000_0000)
                by (nonlinear_arith)
                requires 0 <= (i as int) < 0x1_0000_0000_0000_0000;
        }
        acc = acc + (row[i] as u128);
        i = i + 1;
    }
    proof {
        assert(row@.take(row@.len() as int) =~= row@);
    }
    acc
}

/// Sum of one author's column, wide enough never to overflow.
fn col_sum_wide(rows: &Vec<Vec<u32>>, a: usize) -> (r: u128)
    requires
        forall|i: int| 0 <= i < rows@.len() ==> a < (#[trigger] rows@[i])@.len(),
    ensures
        r as int == crate::model::sum_col(rows.deep_view(), a as int),
{
    let ghost rv = rows.deep_view();
    let mut acc: u128 = 0;
    let mut i: usize = 0;
    proof {
        assert(rv.take(0) =~= Seq::<Seq<u32>>::empty());
    }
    while i < rows.len()
        invariant
            0 <= i <= rows@.len(),
            rv == rows.deep_view(),
            rv.len() == rows@.len(),
            forall|k: int| 0 <= k < rows@.len() ==> a < (#[trigger] rows@[k])@.len(),
            acc as int == crate::model::sum_col(rv.take(i as int), a as int),
            acc <= (i as u128) * 0xffff_ffff,
        decreases rows@.len() - i,
    {
        proof {
            assert(rv.take(i + 1).drop_last() =~= rv.take(i as int));
            assert(rv.take(i + 1).last() == rv[i as int]);
            assert(rv[i as int] == rows@[i as int]@);
            assert((i as int + 1) * 0xffff_ffff == (i as int) * 0xffff_ffff + 0xffff_ffff)
                by (nonlinear_arith);
            assert((i as int) * 0xffff_ffff >= 0) by (nonlinear_arith)
                requires i >= 0;
            assert((i as int + 1) * 0xffff_ffff < 0x1_0000_0000_0000_0000_0000_0000)
                by (nonlinear_arith)
                requires 0 <= (i as int) < 0x1_0000_0000_0000_0000;
        }
        let row = &rows[i];
        let x = row[a];
        acc = acc + (x as u128);
        i = i + 1;
    }
    proof {
        assert(rv.take(rv.len() as int) =~= rv);
    }
    acc
}

/// Whether the parts form a well-formed model.
fn check_model(
    authors: &Vec<String>,
    tokens: &Vec<String>,
    rows: &Vec<Vec<u32>>,
    totals: &Vec<u32>,
    grand: u32,
) -> (r: bool)
    ensures
        r == (ModelView {
            authors: authors.deep_view(),
            tokens: tokens.deep_view(),
            rows: rows.deep_view(),
            totals: totals@,
            grand: grand,
        }).wf(),
{
    let ghost v = ModelView {
        authors: authors.deep_view(),
        tokens: tokens.deep_view(),
        rows: rows.deep_view(),
        totals: totals@,
        grand: grand,
    };
    let a_count = authors.len();
    if rows.len() != tokens.len() {
        return false;
    }
    if totals.len() != a_count {
        return false;
    }
    if !all_unique(authors) {
        return false;
    }
    if !all_unique(tokens) {
        return false;
    }
    let mut i: usize = 0;
    while i < rows.len()
        invariant
            0 <= i <= rows@.len(),
            v.rows == rows.deep_view(),
            v.rows.len() == rows@.len(),
            v.authors == authors.deep_view(),
            v.authors.len() == a_count,
            a_count == authors@.len(),
            forall|k: int| 0 <= k < i ==> (#[trigger] rows@[k])@.len() == a_count,
            forall|k: int| 0 <= k < i ==> crate::model::sum_row(#[trigger] rows@[k]@) >= 1,
        decreases rows@.len() - i,
    {
        let row = &rows[i];
        if row.len() != a_count {
            proof {
                assert(v.rows[i as int] == rows@[i as int]@);
                assert(!v.wf());
            }
            return false;
        }
        let s = row_sum_wide(row);
        if s == 0 {
            proof {
                assert(v.rows[i as int] == rows@[i as int]@);
                assert(!v.wf());
            }
            return false;
        }
        i = i + 1;
    }
    proof {
        assert forall|k: int| 0 <= k < v.rows.len() implies (#[trigger] v.rows[k]).len()
            == v.authors.len() by {
            assert(v.rows[k] == rows@[k]@);
        }
        assert forall|k: int| 0 <= k < v.rows.len() implies crate::model::sum_row(
            #[trigger] v.rows[k],
        ) >= 1 by {
            assert(v.rows[k] == rows@[k]@);
        }
    }
    let mut a: usize = 0;
    while a < a_count
        invariant
            0 <= a <= a_count,
            v.rows == rows.deep_view(),
            v.totals == totals@,
            a_count == authors@.len(),
            totals@.len() == a_count,
            forall|k: int| 0 <= k < rows@.len() ==> (#[trigger] rows@[k])@.len() == a_count,
            forall|x: int|
                0 <= x < a ==> (#[trigger] totals@[x]) as int == crate::model::sum_col(
                    rows.deep_view(),
                    x,
                ),
        decreases a_count - a,
    {
        let c = col_sum_wide(rows, a);
        let t = totals[a];
        if c != t as u128 {
            proof {
                assert(v.totals[a as int] as int != crate::model::sum_col(v.rows, a as int));
                assert(!v.wf());
            }
            return false;
        }
        a = a + 1;
    }
    let g = row_sum_wide(totals);
    if g != grand as u128 {
        proof {
            assert(!v.wf());
        }
        return false;
    }
    proof {
        assert(v.wf());
    }
    true
}

/// Read a row of `n` counts at `p`, executable.
fn read_row(b: &Vec<u8>, p: usize, n: u64) -> (r: Option<(Vec<u32>, usize)>)
    requires
        p <= b@.len(),
    ensures
        match r {
            Some((row, p2)) => parse_row(b@, p as int, n as nat) == Some((row@, p2 as int)) && p
                <= p2 <= b@.len(),
            None => parse_row(b@, p as int, n as nat) is None,
        },
{
    let mut row: Vec<u32> = Vec::new();
    let mut pos: usize = p;
    let mut i: u64 = 0;
    while i < n
        invariant
            0 <= i <= n,
            p <= pos <= b@.len(),
            parse_row(b@, p as int, i as nat) == Some((row@, pos as int)),
        decreases n - i,
    {
        proof {
            lemma_parse_row_snoc(b@, p as int, i as nat);
        }
        match read_u32(b, pos) {
            Some((x, p2)) => {
                row.push(x);
                pos = p2;
            },
            None => {
                proof {
                    lemma_parse_row_none_mono(b@, p as int, (i + 1) as nat, n as nat);
                }
                return None;
            },
        }
        i = i + 1;
    }
    Some((row, pos))
}

/// Decode the parts of a model from bytes; `None` exactly when the
/// bytes are not the encoding of a well-formed model.
pub(crate) fn decode_parts(b: &Vec<u8>) -> (r: Option<(Vec<String>, Vec<String>, Vec<Vec<u32>>, Vec<u32>, u32)>)
    ensures
        match r {
            Some(parts) => spec_decode(b@) == Some(
                ModelView {
                    authors: parts.0.deep_view(),
                    tokens: parts.1.deep_view(),
                    rows: parts.2.deep_view(),
                    totals: parts.3@,
                    grand: parts.4,
                },
            ),
            None => spec_decode(b@) is None,
        },
{
    if b.len() < 1 {
        return None;
    }
    let v0 = b[0];
    if v0 != FORMAT_VERSION {
        return None;
    }
    let (na, p1) = match read_u64(b, 1) {
        Some(x) => x,
        None => {
            return None;
        },
    };
    let mut authors: Vec<String> = Vec::new();
    let mut pos: usize = p1;
    let mut i: u64 = 0;
    while i < na
        invariant
            0 <= i <= na,
            p1 <= pos <= b@.len(),
            b@.len() >= 1,
            b@[0] == FORMAT_VERSION,
            parse_u64(b@, 1) == Some((na as int, p1 as int)),
            parse_strs(b@, p1 as int, i as nat) == Some((authors.deep_view(), pos as int)),
        decreases na - i,
    {
        proof {
            lemma_parse_strs_snoc(b@, p1 as int, i as nat);
        }
        let ghost adv = authors.deep_view();
        match read_str(b, pos) {
            Some((s, p2)) => {
                authors.push(s);
                proof {
                    assert(authors.deep_view() =~= adv.push(authors@.last()@));
                }
                pos = p2;
            },
            None => {
                proof {
                    lemma_parse_strs_none_mono(b@, p1 as int, (i + 1) as nat, na as nat);
                }
                return None;
            },
        }
        i = i + 1;
    }
    let (nt, p3) = match read_u64(b, pos) {
        Some(x) => x,
        None => {
            return None;
        },
    };
    let mut tokens: Vec<String> = Vec::new();
    let mut rows: Vec<Vec<u32>> = Vec::new();
    let ghost tstart = p3;
    let ghost adv_all = authors.deep_view();
    let ghost pos_a = pos;
    pos = p3;
    let mut j: u64 = 0;
    while j < nt
        invariant
            0 <= j <= nt,
            tstart <= pos <= b@.len(),
            b@.len() >= 1,
            b@[0] == FORMAT_VERSION,
            parse_u64(b@, 1) == Some((na as int, p1 as int)),
            parse_strs(b@, p1 as int, na as nat) == Some((adv_all, pos_a as int)),
            adv_all == authors.deep_view(),
            parse_u64(b@, pos_a as int) == Some((nt as int, tstart as int)),
            tokens@.len() == rows@.len(),
            parse_tokens(b@, tstart as int, j as nat, na as nat) == Some(
                ((tokens.deep_view(), rows.deep_view()), pos as int),
            ),
        decreases nt - j,
    {
        proof {
            lemma_parse_tokens_snoc(b@, tstart as int, j as nat, na as nat);
        }
        let ghost tdv = tokens.deep_view();
        let ghost rdv = rows.deep_view();
        let (s, p4) = match read_str(b, pos) {
            Some(x) => x,
            None => {
                proof {
                    lemma_parse_tokens_none_mono(b@, tstart as int, (j + 1) as nat, nt as nat, na as nat);
                }
                return None;
            },
        };
        let (row, p5) = match read_row(b, p4, na) {
            Some(x) => x,
            None => {
                proof {
                    lemma_parse_tokens_none_mono(b@, tstart as int, (j + 1) as nat, nt as nat, na as nat);
                }
                return None;
            },
        };
        tokens.push(s);
        rows.push(row);
        proof {
            assert(tokens.deep_view() =~= tdv.push(tokens@.last()@));
            assert(rows.deep_view() =~~= rdv.push(rows@.last()@));
        }
        pos = p5;
        j = j + 1;
    }
    let (totals, p6) = match read_row(b, pos, na) {
        Some(x) => x,
        None => {
            return None;
        },
    };
    let (grand, p7) = match read_u32(b, p6) {
        Some(x) => x,
        None => {
            return None;
        },
    };
    if p7 != b.len() {
        return None;
    }
    if !check_model(&authors, &tokens, &rows, &totals, grand) {
        return None;
    }
    Some((authors, tokens, rows, totals, grand))
}

proof fn lemma_enc_row_len(row: Seq<u32>)
    ensures
        enc_row(row).len() == 4 * row.len(),
    decreases row.len(),
{
    if row.len() > 0 {
        lemma_enc_row_len(row.drop_last());
    }
}

proof fn lemma_split_subrange(b: Seq<u8>, p: int, x: Seq<u8>, y: Seq<u8>)
    requires
        0 <= p,
        p + x.len() + y.len() <= b.len(),
        b.subrange(p, p + x.len() + y.len()) == x + y,
    ensures
        b.subrange(p, p + x.len()) == x,
        b.subrange(p + x.len(), p + x.len() + y.len()) == y,
{
    let whole = b.subrange(p, p + x.len() + y.len());
    assert forall|i: int| 0 <= i < x.len() implies b.subrange(p, p + x.len())[i] == x[i] by {
        assert(whole[i] == (x + y)[i]);
    }
    assert(b.subrange(p, p + x.len()) =~= x);
    assert forall|i: int| 0 <= i < y.len() implies b.subrange(
        p + x.len(),
        p + x.len() + y.len(),
    )[i] == y[i] by {
        assert(whole[x.len() + i] == (x + y)[x.len() + i]);
    }
    assert(b.subrange(p + x.len(), p + x.len() + y.len()) =~= y);
}

proof fn lemma_parse_str_of_enc(b: Seq<u8>, p: int, s: Seq<char>)
    requires
        0 <= p,
        p + enc_str(s).len() <= b.len(),
        b.subrange(p, p + enc_str(s).len()) == enc_str(s),
        encode_utf8(s).len() <= u64::MAX,
    ensures
        parse_str(b, p) == Some((s, p + enc_str(s).len())),
{
    let n = encode_utf8(s).len() as int;
    assert(enc_str(s).len() == 8 + n);
    lemma_split_subrange(b, p, enc_u64(encode_utf8(s).len() as u64), encode_utf8(s));
    lemma_dec_enc_u64(b, p, encode_utf8(s).len() as u64);
    assert(parse_u64(b, p) == Some((n, p + 8)));
    broadcast use vstd::utf8::encode_utf8_valid_utf8;
    broadcast use vstd::utf8::encode_utf8_decode_utf8;

    assert(valid_utf8(b.subrange(p + 8, p + 8 + n)));
    assert(decode_utf8(b.subrange(p + 8, p + 8 + n)) == s);
}

proof fn lemma_parse_row_of_enc(b: Seq<u8>, p: int, row: Seq<u32>)
    requires
        0 <= p,
        p + enc_row(row).len() <= b.len(),
        b.subrange(p, p + enc_row(row).len()) == enc_row(row),
    ensures
        parse_row(b, p, row.len()) == Some((row, p + enc_row(row).len())),
    decreases row.len(),
{
    lemma_enc_row_len(row);
    if row.len() == 0 {
    } else {
        let dl = row.drop_last();
        lemma_enc_row_len(dl);
        assert(enc_row(row) == enc_row(dl) + enc_u32(row.last()));
        lemma_split_subrange(b, p, enc_row(dl), enc_u32(row.last()));
        lemma_parse_row_of_enc(b, p, dl);
        let p2 = p + enc_row(dl).len();
        lemma_dec_enc_u32(b, p2, row.last());
        assert(parse_u32(b, p2) == Some((row.last() as int, p2 + 4)));
        lemma_parse_row_snoc(b, p, (row.len() - 1) as nat);
        assert(dl.push(row.last()) =~= row);
    }
}

proof fn lemma_parse_strs_of_enc(b: Seq<u8>, p: int, ss: Seq<Seq<char>>)
    requires
        0 <= p,
        p + enc_str_list(ss).len() <= b.len(),
        b.subrange(p, p + enc_str_list(ss).len()) == enc_str_list(ss),
        forall|i: int| 0 <= i < ss.len() ==> encode_utf8(#[trigger] ss[i]).len() <= u64::MAX,
    ensures
        parse_strs(b, p, ss.len()) == Some((ss, p + enc_str_list(ss).len())),
    decreases ss.len(),
{
    if ss.len() == 0 {
    } else {
        let dl = ss.drop_last();
        assert(enc_str_list(ss) == enc_str_list(dl) + enc_str(ss.last()));
        lemma_split_subrange(b, p, enc_str_list(dl), enc_str(ss.last()));
        assert(forall|i: int| 0 <= i < dl.len() ==> #[trigger] dl[i] == ss[i]);
        lemma_parse_strs_of_enc(b, p, dl);
        let p2 = p + enc_str_list(dl).len();
        lemma_parse_str_of_enc(b, p2, ss.last());
        lemma_parse_strs_snoc(b, p, (ss.len() - 1) as nat);
        assert(dl.push(ss.last()) =~= ss);
    }
}

proof fn lemma_parse_tokens_of_enc(
    b: Seq<u8>,
    p: int,
    toks: Seq<Seq<char>>,
    rows: Seq<Seq<u32>>,
    acount: nat,
)
    requires
        0 <= p,
        toks.len() == rows.len(),
        forall|i: int| 0 <= i < rows.len() ==> (#[trigger] rows[i]).len() == acount,
        p + enc_tokens(toks, rows).len() <= b.len(),
        b.subrange(p, p + enc_tokens(toks, rows).len()) == enc_tokens(toks, rows),
        forall|i: int| 0 <= i < toks.len() ==> encode_utf8(#[trigger] toks[i]).len() <= u64::MAX,
    ensures
        parse_tokens(b, p, toks.len(), acount) == Some(
            ((toks, rows), p + enc_tokens(toks, rows).len()),
        ),
    decreases toks.len(),
{
    if toks.len() == 0 {
    } else {
        let tdl = toks.drop_last();
        let rdl = rows.drop_last();
        assert(enc_tokens(toks, rows) == enc_tokens(tdl, rdl) + enc_str(toks.last()) + enc_row(
            rows.last(),
        ));
        assert(enc_tokens(toks, rows) =~= enc_tokens(tdl, rdl) + (enc_str(toks.last()) + enc_row(
            rows.last(),
        )));
        lemma_split_subrange(
            b,
            p,
            enc_tokens(tdl, rdl),
            enc_str(toks.last()) + enc_row(rows.last()),
        );
        assert(forall|i: int| 0 <= i < tdl.len() ==> #[trigger] tdl[i] == toks[i]);
        assert(forall|i: int| 0 <= i < rdl.len() ==> #[trigger] rdl[i] == rows[i]);
        lemma_parse_tokens_of_enc(b, p, tdl, rdl, acount);
        let p2 = p + enc_tokens(tdl, rdl).len();
        lemma_split_subrange(b, p2, enc_str(toks.last()), enc_row(rows.last()));
        lemma_parse_str_of_enc(b, p2, toks.last());
        let p3 = p2 + enc_str(toks.last()).len();
        lemma_parse_row_of_enc(b, p3, rows.last());
        assert(rows.last().len() == acount);
        lemma_parse_tokens_snoc(b, p, (toks.len() - 1) as nat, acount);
        assert(tdl.push(toks.last()) =~= toks);
        assert(rdl.push(rows.last()) =~= rows);
    }
}

proof fn lemma_regroup(
    s0: Seq<u8>,
    s1: Seq<u8>,
    s2: Seq<u8>,
    s3: Seq<u8>,
    s4: Seq<u8>,
    s5: Seq<u8>,
    s6: Seq<u8>,
)
    ensures
        s0 + s1 + s2 + s3 + s4 + s5 + s6 == s0 + (s1 + (s2 + (s3 + (s4 + (s5 + s6))))),
{
    assert(s0 + s1 + s2 + s3 + s4 + s5 + s6 =~= s0 + (s1 + (s2 + (s3 + (s4 + (s5 + s6))))));
}

#[verifier::rlimit(100)]
proof fn lemma_decode_assemble(b: Seq<u8>, v: ModelView, p1: int, p2: int, p3: int, p4: int, p5: int)
    requires
        v.wf(),
        b.len() >= 1,
        b[0] == FORMAT_VERSION,
        parse_u64(b, 1) == Some((v.authors.len() as int, p1)),
        parse_strs(b, p1, v.authors.len()) == Some((v.authors, p2)),
        parse_u64(b, p2) == Some((v.tokens.len() as int, p3)),
        parse_tokens(b, p3, v.tokens.len(), v.authors.len()) == Some(((v.tokens, v.rows), p4)),
        parse_row(b, p4, v.authors.len()) == Some((v.totals, p5)),
        parse_u32(b, p5) == Some((v.grand as int, b.len() as int)),
    ensures
        spec_decode(b) == Some(v),
{
}

#[verifier::rlimit(100)]
proof fn lemma_encode_splits(v: ModelView)
    ensures
        ({
            let b = spec_encode(v);
            let p1 = 9int;
            let p2 = p1 + enc_str_list(v.authors).len();
            let p3 = p2 + 8;
            let p4 = p3 + enc_tokens(v.tokens, v.rows).len();
            let p5 = p4 + enc_row(v.totals).len();
            &&& b.len() == p5 + 4
            &&& b[0] == FORMAT_VERSION
            &&& b.subrange(1, p1) == enc_u64(v.authors.len() as u64)
            &&& b.subrange(p1, p2) == enc_str_list(v.authors)
            &&& b.subrange(p2, p3) == enc_u64(v.tokens.len() as u64)
            &&& b.subrange(p3, p4) == enc_tokens(v.tokens, v.rows)
            &&& b.subrange(p4, p5) == enc_row(v.totals)
            &&& b.subrange(p5, p5 + 4) == enc_u32(v.grand)
        }),
{
    let b = spec_encode(v);
    let s0 = seq![FORMAT_VERSION];
    let s1 = enc_u64(v.authors.len() as u64);
    let s2 = enc_str_list(v.authors);
    let s3 = enc_u64(v.tokens.len() as u64);
    let s4 = enc_tokens(v.tokens, v.rows);
    let s5 = enc_row(v.totals);
    let s6 = enc_u32(v.grand);
    assert(b == s0 + s1 + s2 + s3 + s4 + s5 + s6);
    let t5 = s5 + s6;
    let t4 = s4 + t5;
    let t3 = s3 + t4;
    let t2 = s2 + t3;
    let t1 = s1 + t2;
    lemma_regroup(s0, s1, s2, s3, s4, s5, s6);
    assert(b == s0 + t1);
    assert(b.subrange(0, b.len() as int) =~= b);
    lemma_split_subrange(b, 0, s0, t1);
    assert(b[0] == b.subrange(0, 1)[0]);
    lemma_split_subrange(b, 1, s1, t2);
    lemma_split_subrange(b, 9, s2, t3);
    lemma_split_subrange(b, 9 + s2.len() as int, s3, t4);
    lemma_split_subrange(b, 17 + s2.len() as int, s4, t5);
    lemma_split_subrange(b, 17 + s2.len() as int + s4.len() as int, s5, s6);
}

/// Round trip: decoding the encoding of any well-formed model yields
/// the model itself, so persistence preserves classification exactly.
#[verifier::rlimit(100)]
pub proof fn lemma_encode_decode(v: ModelView)
    requires
        v.wf(),
        encodable(v),
    ensures
        spec_decode(spec_encode(v)) == Some(v),
{
    let b = spec_encode(v);
    let na = v.authors.len();
    let nt = v.tokens.len();
    let p1 = 9int;
    let p2 = p1 + enc_str_list(v.authors).len();
    let p3 = p2 + 8;
    let p4 = p3 + enc_tokens(v.tokens, v.rows).len();
    let p5 = p4 + enc_row(v.totals).len();
    lemma_encode_splits(v);
    lemma_dec_enc_u64(b, 1, na as u64);
    assert(parse_u64(b, 1) == Some((na as int, p1)));
    lemma_parse_strs_of_enc(b, p1, v.authors);
    assert(parse_strs(b, p1, na) == Some((v.authors, p2)));
    lemma_dec_enc_u64(b, p2, nt as u64);
    assert(parse_u64(b, p2) == Some((nt as int, p3)));
    lemma_parse_tokens_of_enc(b, p3, v.tokens, v.rows, na);
    assert(parse_tokens(b, p3, nt, na) == Some(((v.tokens, v.rows), p4)));
    lemma_parse_row_of_enc(b, p4, v.totals);
    assert(v.totals.len() == na);
    assert(parse_row(b, p4, na) == Some((v.totals, p5)));
    lemma_dec_enc_u32(b, p5, v.grand);
    assert(parse_u32(b, p5) == Some((v.grand as int, p5 + 4)));
    lemma_decode_assemble(b, v, p1, p2, p3, p4, p5);
}

} // verus!
