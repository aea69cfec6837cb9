use vstd::prelude::*;
use vstd::arithmetic::div_mod::{
    lemma_fundamental_div_mod_converse_div, lemma_fundamental_div_mod_converse_mod,
    lemma_fundamental_div_mod, lemma_div_denominator,
};
use crate::cost::{SlopeFactor, COST_CAP};
use crate::network::{Network, NodeId, WayId, EdgeKey, Lts, Tag, Edge};
use crate::position::Position;
use crate::storemap::KeyedVec;

verus! {

/// Leading marker of the network cache format; a file that does not
/// start with it is a format mismatch.
pub const CACHE_MAGIC: u64 = 0x6f64_326e_6574_0001;

/// Why a cache could not be used.  Both causes mean "rebuild", never a
/// fatal error.
#[derive(Clone, Copy, PartialEq, Eq, Structural, Debug)]
pub enum CacheUnavailable {
    /// No cache contents were available at all (missing file).
    Missing,
    /// The contents do not decode as a network cache (format mismatch
    /// or corrupt data).
    Corrupt,
}

#[verifier::opaque]
pub open spec fn enc_u64(x: u64) -> Seq<u8> {
    seq![
        (x % 256) as u8,
        ((x / 256) % 256) as u8,
        ((x / 65536) % 256) as u8,
        ((x / 16777216) % 256) as u8,
        ((x / 4294967296) % 256) as u8,
        ((x / 1099511627776) % 256) as u8,
        ((x / 281474976710656) % 256) as u8,
        ((x / 72057594037927936) % 256) as u8,
    ]
}

#[verifier::opaque]
pub open spec fn enc_u32(x: u32) -> Seq<u8> {
    seq![
        (x % 256) as u8,
        ((x / 256) % 256) as u8,
        ((x / 65536) % 256) as u8,
        ((x / 16777216) % 256) as u8,
    ]
}

pub open spec fn enc_i64(x: i64) -> Seq<u8> {
    enc_u64(x as u64)
}

pub open spec fn enc_i32(x: i32) -> Seq<u8> {
    enc_u32(x as u32)
}

pub open spec fn enc_opt_u64(x: Option<u64>) -> Seq<u8> {
    match x {
        None => seq![0u8],
        Some(v) => seq![1u8] + enc_u64(v),
    }
}

pub open spec fn enc_opt_i64(x: Option<i64>) -> Seq<u8> {
    match x {
        None => seq![0u8],
        Some(v) => seq![1u8] + enc_i64(v),
    }
}

pub open spec fn enc_byte_str(b: Seq<u8>) -> Seq<u8> {
    enc_u64(b.len() as u64) + b
}

pub open spec fn enc_tag(t: Tag) -> Seq<u8> {
    enc_byte_str(t.key@) + enc_byte_str(t.value@)
}

pub open spec fn enc_tags(s: Seq<Tag>) -> Seq<u8>
    decreases s.len(),
{
    if s.len() == 0 {
        Seq::empty()
    } else {
        enc_tags(s.drop_last()) + enc_tag(s.last())
    }
}

pub open spec fn enc_pos(p: Position) -> Seq<u8> {
    enc_i32(p.lon) + enc_i32(p.lat)
}

pub open spec fn enc_positions(s: Seq<Position>) -> Seq<u8>
    decreases s.len(),
{
    if s.len() == 0 {
        Seq::empty()
    } else {
        enc_positions(s.drop_last()) + enc_pos(s.last())
    }
}

pub open spec fn enc_opt_factors(x: Option<(SlopeFactor, SlopeFactor)>) -> Seq<u8> {
    match x {
        None => seq![0u8],
        Some(p) => seq![1u8] + enc_u64(p.0.num) + enc_u64(p.0.den) + enc_u64(p.1.num)
            + enc_u64(p.1.den),
    }
}

pub open spec fn enc_node(p: (NodeId, Position)) -> Seq<u8> {
    enc_i64(p.0.0) + enc_pos(p.1)
}

pub open spec fn enc_nodes(s: Seq<(NodeId, Position)>) -> Seq<u8>
    decreases s.len(),
{
    if s.len() == 0 {
        Seq::empty()
    } else {
        enc_nodes(s.drop_last()) + enc_node(s.last())
    }
}

pub open spec fn enc_edge(p: (EdgeKey, Edge)) -> Seq<u8> {
    enc_i64(p.0.from.0) + enc_i64(p.0.to.0) + enc_i64(p.1.way_id.0)
        + enc_u64(p.1.tags@.len() as u64) + enc_tags(p.1.tags@)
        + enc_u64(p.1.geometry@.len() as u64) + enc_positions(p.1.geometry@)
        + enc_opt_i64(p.1.slope) + enc_opt_factors(p.1.slope_factor)
        + enc_u64(p.1.length_mm) + seq![p.1.lts.as_index() as u8]
        + enc_opt_u64(p.1.forward_cost) + enc_opt_u64(p.1.backward_cost)
        + enc_u64(p.1.nearby_amenities)
}

pub open spec fn enc_edges(s: Seq<(EdgeKey, Edge)>) -> Seq<u8>
    decreases s.len(),
{
    if s.len() == 0 {
        Seq::empty()
    } else {
        enc_edges(s.drop_last()) + enc_edge(s.last())
    }
}

/// The whole cache image of a network, over its stored entry order.
pub open spec fn enc_network(
    iseq: Seq<(NodeId, Position)>, eseq: Seq<(EdgeKey, Edge)>,
) -> Seq<u8> {
    enc_u64(CACHE_MAGIC) + enc_u64(iseq.len() as u64) + enc_nodes(iseq)
        + enc_u64(eseq.len() as u64) + enc_edges(eseq)
}


pub proof fn lemma_enc_u64_len(x: u64)
    ensures
        enc_u64(x).len() == 8,
{
    reveal(enc_u64);
}

pub proof fn lemma_enc_u32_len(x: u32)
    ensures
        enc_u32(x).len() == 4,
{
    reveal(enc_u32);
}

/// A 64-bit value is recovered exactly from its eight encoded bytes.
proof fn lemma_u64_recompose(x: u64)
    ensures
        x as int == (x as int % 256) + 256 * ((x as int / 256) % 256)
            + 65536 * ((x as int / 65536) % 256) + 16777216 * ((x as int / 16777216) % 256)
            + 4294967296 * ((x as int / 4294967296) % 256)
            + 1099511627776 * ((x as int / 1099511627776) % 256)
            + 281474976710656 * ((x as int / 281474976710656) % 256)
            + 72057594037927936 * ((x as int / 72057594037927936) % 256),
{
    let xi = x as int;
    lemma_fundamental_div_mod(xi, 256);
    lemma_fundamental_div_mod(xi / 256, 256);
    lemma_fundamental_div_mod(xi / 65536, 256);
    lemma_fundamental_div_mod(xi / 16777216, 256);
    lemma_fundamental_div_mod(xi / 4294967296, 256);
    lemma_fundamental_div_mod(xi / 1099511627776, 256);
    lemma_fundamental_div_mod(xi / 281474976710656, 256);
    lemma_div_denominator(xi, 256, 256);
    lemma_div_denominator(xi, 65536, 256);
    lemma_div_denominator(xi, 16777216, 256);
    lemma_div_denominator(xi, 4294967296, 256);
    lemma_div_denominator(xi, 1099511627776, 256);
    lemma_div_denominator(xi, 281474976710656, 256);
    assert(xi / 72057594037927936 % 256 == xi / 72057594037927936) by (nonlinear_arith)
        requires 0 <= xi < 0x1_0000_0000_0000_0000;
}

/// A 32-bit value is recovered exactly from its four encoded bytes.
proof fn lemma_u32_recompose(x: u32)
    ensures
        x as int == (x as int % 256) + 256 * ((x as int / 256) % 256)
            + 65536 * ((x as int / 65536) % 256) + 16777216 * ((x as int / 16777216) % 256),
{
    let xi = x as int;
    lemma_fundamental_div_mod(xi, 256);
    lemma_fundamental_div_mod(xi / 256, 256);
    lemma_fundamental_div_mod(xi / 65536, 256);
    lemma_div_denominator(xi, 256, 256);
    lemma_div_denominator(xi, 65536, 256);
    assert(xi / 16777216 % 256 == xi / 16777216) by (nonlinear_arith)
        requires 0 <= xi < 0x1_0000_0000;
}

/// The byte encoding of a 64-bit value determines the value.
pub proof fn lemma_enc_u64_inj(a: u64, b: u64)
    requires
        enc_u64(a) == enc_u64(b),
    ensures
        a == b,
{
    reveal(enc_u64);
    lemma_u64_recompose(a);
    lemma_u64_recompose(b);
    assert(enc_u64(a)[0] == enc_u64(b)[0]);
    assert(enc_u64(a)[1] == enc_u64(b)[1]);
    assert(enc_u64(a)[2] == enc_u64(b)[2]);
    assert(enc_u64(a)[3] == enc_u64(b)[3]);
    assert(enc_u64(a)[4] == enc_u64(b)[4]);
    assert(enc_u64(a)[5] == enc_u64(b)[5]);
    assert(enc_u64(a)[6] == enc_u64(b)[6]);
    assert(enc_u64(a)[7] == enc_u64(b)[7]);
}

/// The byte encoding of a 32-bit value determines the value.
pub proof fn lemma_enc_u32_inj(a: u32, b: u32)
    requires
        enc_u32(a) == enc_u32(b),
    ensures
        a == b,
{
    reveal(enc_u32);
    lemma_u32_recompose(a);
    lemma_u32_recompose(b);
    assert(enc_u32(a)[0] == enc_u32(b)[0]);
    assert(enc_u32(a)[1] == enc_u32(b)[1]);
    assert(enc_u32(a)[2] == enc_u32(b)[2]);
    assert(enc_u32(a)[3] == enc_u32(b)[3]);
}

pub proof fn lemma_enc_i64_inj(a: i64, b: i64)
    requires
        enc_i64(a) == enc_i64(b),
    ensures
        a == b,
{
    lemma_enc_u64_inj(a as u64, b as u64);
    assert(a as u64 == b as u64 ==> a == b) by (bit_vector);
}

proof fn lemma_u64_bytes(b0: u8, b1: u8, b2: u8, b3: u8, b4: u8, b5: u8, b6: u8, b7: u8)
    ensures
        enc_u64(
            ((b0 as int) + 256 * (b1 as int) + 65536 * (b2 as int) + 16777216 * (b3 as int)
                + 4294967296 * (b4 as int) + 1099511627776 * (b5 as int)
                + 281474976710656 * (b6 as int) + 72057594037927936 * (b7 as int)) as u64,
        ) =~= seq![b0, b1, b2, b3, b4, b5, b6, b7],
{
    reveal(enc_u64);
    let x = (b0 as int) + 256 * (b1 as int) + 65536 * (b2 as int) + 16777216 * (b3 as int)
        + 4294967296 * (b4 as int) + 1099511627776 * (b5 as int)
        + 281474976710656 * (b6 as int) + 72057594037927936 * (b7 as int);
    let r1 = (b1 as int) + 256 * (b2 as int) + 65536 * (b3 as int) + 16777216 * (b4 as int)
        + 4294967296 * (b5 as int) + 1099511627776 * (b6 as int)
        + 281474976710656 * (b7 as int);
    let r2 = (b2 as int) + 256 * (b3 as int) + 65536 * (b4 as int) + 16777216 * (b5 as int)
        + 4294967296 * (b6 as int) + 1099511627776 * (b7 as int);
    let r3 = (b3 as int) + 256 * (b4 as int) + 65536 * (b5 as int) + 16777216 * (b6 as int)
        + 4294967296 * (b7 as int);
    let r4 = (b4 as int) + 256 * (b5 as int) + 65536 * (b6 as int) + 16777216 * (b7 as int);
    let r5 = (b5 as int) + 256 * (b6 as int) + 65536 * (b7 as int);
    let r6 = (b6 as int) + 256 * (b7 as int);
    let r7 = b7 as int;
    lemma_fundamental_div_mod_converse_div(x, 256, r1, b0 as int);
    lemma_fundamental_div_mod_converse_mod(x, 256, r1, b0 as int);
    lemma_fundamental_div_mod_converse_div(r1, 256, r2, b1 as int);
    lemma_fundamental_div_mod_converse_mod(r1, 256, r2, b1 as int);
    lemma_fundamental_div_mod_converse_div(r2, 256, r3, b2 as int);
    lemma_fundamental_div_mod_converse_mod(r2, 256, r3, b2 as int);
    lemma_fundamental_div_mod_converse_div(r3, 256, r4, b3 as int);
    lemma_fundamental_div_mod_converse_mod(r3, 256, r4, b3 as int);
    lemma_fundamental_div_mod_converse_div(r4, 256, r5, b4 as int);
    lemma_fundamental_div_mod_converse_mod(r4, 256, r5, b4 as int);
    lemma_fundamental_div_mod_converse_div(r5, 256, r6, b5 as int);
    lemma_fundamental_div_mod_converse_mod(r5, 256, r6, b5 as int);
    lemma_fundamental_div_mod_converse_div(r6, 256, r7, b6 as int);
    lemma_fundamental_div_mod_converse_mod(r6, 256, r7, b6 as int);
    lemma_fundamental_div_mod_converse_div(r7, 256, 0, b7 as int);
    lemma_fundamental_div_mod_converse_mod(r7, 256, 0, b7 as int);
    assert(x / 256 == r1 && x % 256 == b0 as int);
    assert(x / 65536 == r2) by (nonlinear_arith)
        requires x / 256 == r1, r1 / 256 == r2, x >= 0;
    assert(x / 16777216 == r3) by (nonlinear_arith)
        requires x / 65536 == r2, r2 / 256 == r3, x >= 0;
    assert(x / 4294967296 == r4) by (nonlinear_arith)
        requires x / 16777216 == r3, r3 / 256 == r4, x >= 0;
    assert(x / 1099511627776 == r5) by (nonlinear_arith)
        requires x / 4294967296 == r4, r4 / 256 == r5, x >= 0;
    assert(x / 281474976710656 == r6) by (nonlinear_arith)
        requires x / 1099511627776 == r5, r5 / 256 == r6, x >= 0;
    assert(x / 72057594037927936 == r7) by (nonlinear_arith)
        requires x / 281474976710656 == r6, r6 / 256 == r7, x >= 0;
}

proof fn lemma_u32_bytes(b0: u8, b1: u8, b2: u8, b3: u8)
    ensures
        enc_u32(
            ((b0 as int) + 256 * (b1 as int) + 65536 * (b2 as int)
                + 16777216 * (b3 as int)) as u32,
        ) =~= seq![b0, b1, b2, b3],
{
    reveal(enc_u32);
    let x = (b0 as int) + 256 * (b1 as int) + 65536 * (b2 as int) + 16777216 * (b3 as int);
    let r1 = (b1 as int) + 256 * (b2 as int) + 65536 * (b3 as int);
    let r2 = (b2 as int) + 256 * (b3 as int);
    let r3 = b3 as int;
    lemma_fundamental_div_mod_converse_div(x, 256, r1, b0 as int);
    lemma_fundamental_div_mod_converse_mod(x, 256, r1, b0 as int);
    lemma_fundamental_div_mod_converse_div(r1, 256, r2, b1 as int);
    lemma_fundamental_div_mod_converse_mod(r1, 256, r2, b1 as int);
    lemma_fundamental_div_mod_converse_div(r2, 256, r3, b2 as int);
    lemma_fundamental_div_mod_converse_mod(r2, 256, r3, b2 as int);
    lemma_fundamental_div_mod_converse_div(r3, 256, 0, b3 as int);
    lemma_fundamental_div_mod_converse_mod(r3, 256, 0, b3 as int);
    assert(x / 65536 == r2) by (nonlinear_arith)
        requires x / 256 == r1, r1 / 256 == r2, x >= 0;
    assert(x / 16777216 == r3) by (nonlinear_arith)
        requires x / 65536 == r2, r2 / 256 == r3, x >= 0;
}

pub(crate) fn put_u64(out: &mut Vec<u8>, x: u64)
    ensures
        final(out)@ == old(out)@ + enc_u64(x),
{
    out.push((x % 256) as u8);
    out.push(((x / 256) % 256) as u8);
    out.push(((x / 65536) % 256) as u8);
    out.push(((x / 16777216) % 256) as u8);
    out.push(((x / 4294967296) % 256) as u8);
    out.push(((x / 1099511627776) % 256) as u8);
    out.push(((x / 281474976710656) % 256) as u8);
    out.push(((x / 72057594037927936) % 256) as u8);
    proof {
        reveal(enc_u64);
        assert(out@ =~= old(out)@ + enc_u64(x));
    }
}

pub(crate) fn put_u32(out: &mut Vec<u8>, x: u32)
    ensures
        final(out)@ == old(out)@ + enc_u32(x),
{
    out.push((x % 256) as u8);
    out.push(((x / 256) % 256) as u8);
    out.push(((x / 65536) % 256) as u8);
    out.push(((x / 16777216) % 256) as u8);
    proof {
        reveal(enc_u32);
        assert(out@ =~= old(out)@ + enc_u32(x));
    }
}

pub(crate) fn put_opt_u64(out: &mut Vec<u8>, x: Option<u64>)
    ensures
        final(out)@ == old(out)@ + enc_opt_u64(x),
{
    match x {
        None => {
            out.push(0);
            proof {
                assert(out@ =~= old(out)@ + enc_opt_u64(x));
            }
        },
        Some(v) => {
            out.push(1);
            put_u64(out, v);
            proof {
                assert(out@ =~= old(out)@ + enc_opt_u64(x));
            }
        },
    }
}

pub(crate) fn put_opt_i64(out: &mut Vec<u8>, x: Option<i64>)
    ensures
        final(out)@ == old(out)@ + enc_opt_i64(x),
{
    match x {
        None => {
            out.push(0);
            proof {
                assert(out@ =~= old(out)@ + enc_opt_i64(x));
            }
        },
        Some(v) => {
            out.push(1);
            put_u64(out, v as u64);
            proof {
                assert(out@ =~= old(out)@ + enc_opt_i64(x));
            }
        },
    }
}

pub(crate) fn put_byte_str(out: &mut Vec<u8>, b: &Vec<u8>)
    ensures
        final(out)@ == old(out)@ + enc_byte_str(b@),
{
    put_u64(out, b.len() as u64);
    let n = b.len();
    let ghost mid = out@;
    for i in 0..n
        invariant
            n == b@.len(),
            out@ == mid + b@.take(i as int),
    {
        out.push(b[i]);
        proof {
            assert(out@ =~= mid + b@.take(i + 1));
        }
    }
    proof {
        assert(b@.take(n as int) =~= b@);
        assert(out@ =~= old(out)@ + enc_byte_str(b@));
    }
}

pub(crate) fn put_pos(out: &mut Vec<u8>, p: Position)
    ensures
        final(out)@ == old(out)@ + enc_pos(p),
{
    put_u32(out, p.lon as u32);
    put_u32(out, p.lat as u32);
    proof {
        assert(out@ =~= old(out)@ + enc_pos(p));
    }
}

#[verifier::rlimit(100)]
fn put_edge(out: &mut Vec<u8>, k: EdgeKey, e: &Edge)
    ensures
        final(out)@ == old(out)@ + enc_edge((k, *e)),
{
    let ghost e0 = out@;
    let ghost mut acc: Seq<u8> = enc_i64(k.from.0);
    put_u64(out, k.from.0 as u64);
    put_u64(out, k.to.0 as u64);
    proof {
        acc = acc + enc_i64(k.to.0);
        assert(out@ =~= e0 + acc);
    }
    put_u64(out, e.way_id.0 as u64);
    proof {
        acc = acc + enc_i64(e.way_id.0);
        assert(out@ =~= e0 + acc);
    }
    put_u64(out, e.tags.len() as u64);
    proof {
        acc = acc + enc_u64(e.tags@.len() as u64);
        assert(out@ =~= e0 + acc);
    }
    let tn = e.tags.len();
    let ghost tmid = out@;
    for i in 0..tn
        invariant
            tn == e.tags@.len(),
            out@ == tmid + enc_tags(e.tags@.take(i as int)),
    {
        put_byte_str(out, &e.tags[i].key);
        put_byte_str(out, &e.tags[i].value);
        proof {
            assert(e.tags@.take(i + 1).drop_last() =~= e.tags@.take(i as int));
            assert(out@ =~= tmid + enc_tags(e.tags@.take(i + 1)));
        }
    }
    proof {
        assert(e.tags@.take(tn as int) =~= e.tags@);
        acc = acc + enc_tags(e.tags@);
        assert(out@ =~= e0 + acc);
    }
    put_u64(out, e.geometry.len() as u64);
    proof {
        acc = acc + enc_u64(e.geometry@.len() as u64);
        assert(out@ =~= e0 + acc);
    }
    let gn = e.geometry.len();
    let ghost gmid = out@;
    for i in 0..gn
        invariant
            gn == e.geometry@.len(),
            out@ == gmid + enc_positions(e.geometry@.take(i as int)),
    {
        put_pos(out, e.geometry[i]);
        proof {
            assert(e.geometry@.take(i + 1).drop_last() =~= e.geometry@.take(i as int));
            assert(out@ =~= gmid + enc_positions(e.geometry@.take(i + 1)));
        }
    }
    proof {
        assert(e.geometry@.take(gn as int) =~= e.geometry@);
        acc = acc + enc_positions(e.geometry@);
        assert(out@ =~= e0 + acc);
    }
    put_opt_i64(out, e.slope);
    proof {
        acc = acc + enc_opt_i64(e.slope);
        assert(out@ =~= e0 + acc);
    }
    match e.slope_factor {
        None => {
            out.push(0);
        },
        Some(p) => {
            out.push(1);
            put_u64(out, p.0.num);
            put_u64(out, p.0.den);
            put_u64(out, p.1.num);
            put_u64(out, p.1.den);
        },
    }
    proof {
        acc = acc + enc_opt_factors(e.slope_factor);
        assert(out@ =~= e0 + acc);
    }
    put_u64(out, e.length_mm);
    out.push(e.lts.to_index() as u8);
    proof {
        acc = acc + enc_u64(e.length_mm) + seq![e.lts.as_index() as u8];
        assert(out@ =~= e0 + acc);
    }
    put_opt_u64(out, e.forward_cost);
    proof {
        acc = acc + enc_opt_u64(e.forward_cost);
        assert(out@ =~= e0 + acc);
    }
    put_opt_u64(out, e.backward_cost);
    put_u64(out, e.nearby_amenities);
    proof {
        acc = acc + enc_opt_u64(e.backward_cost) + enc_u64(e.nearby_amenities);
        assert(out@ =~= e0 + acc);
        assert(acc == enc_edge((k, *e)));
    }
}

pub(crate) fn get_u64(buf: &Vec<u8>, pos: usize) -> (r: Option<(u64, usize)>)
    ensures
        match r {
            Some(p) => pos + 8 == p.1 && p.1 <= buf@.len()
                && buf@.subrange(pos as int, p.1 as int) == enc_u64(p.0),
            None => buf@.len() < pos + 8,
        },
{
    if buf.len() < 8 || pos > buf.len() - 8 {
        return None;
    }
    let b0 = buf[pos];
    let b1 = buf[pos + 1];
    let b2 = buf[pos + 2];
    let b3 = buf[pos + 3];
    let b4 = buf[pos + 4];
    let b5 = buf[pos + 5];
    let b6 = buf[pos + 6];
    let b7 = buf[pos + 7];
    let x: u64 = (b0 as u64) + 256 * (b1 as u64) + 65536 * (b2 as u64)
        + 16777216 * (b3 as u64) + 4294967296 * (b4 as u64) + 1099511627776 * (b5 as u64)
        + 281474976710656 * (b6 as u64) + 72057594037927936 * (b7 as u64);
    proof {
        lemma_u64_bytes(b0, b1, b2, b3, b4, b5, b6, b7);
        assert(buf@.subrange(pos as int, pos + 8) =~= seq![b0, b1, b2, b3, b4, b5, b6, b7]);
    }
    Some((x, pos + 8))
}

pub(crate) fn get_u32(buf: &Vec<u8>, pos: usize) -> (r: Option<(u32, usize)>)
    ensures
        match r {
            Some(p) => pos + 4 == p.1 && p.1 <= buf@.len()
                && buf@.subrange(pos as int, p.1 as int) == enc_u32(p.0),
            None => buf@.len() < pos + 4,
        },
{
    if buf.len() < 4 || pos > buf.len() - 4 {
        return None;
    }
    let b0 = buf[pos];
    let b1 = buf[pos + 1];
    let b2 = buf[pos + 2];
    let b3 = buf[pos + 3];
    let x: u32 = (b0 as u32) + 256 * (b1 as u32) + 65536 * (b2 as u32)
        + 16777216 * (b3 as u32);
    proof {
        lemma_u32_bytes(b0, b1, b2, b3);
        assert(buf@.subrange(pos as int, pos + 4) =~= seq![b0, b1, b2, b3]);
    }
    Some((x, pos + 4))
}

pub(crate) fn get_i64(buf: &Vec<u8>, pos: usize) -> (r: Option<(i64, usize)>)
    ensures
        match r {
            Some(p) => pos + 8 == p.1 && p.1 <= buf@.len()
                && buf@.subrange(pos as int, p.1 as int) == enc_i64(p.0),
            None => buf@.len() < pos + 8,
        },
{
    match get_u64(buf, pos) {
        None => None,
        Some((x, p2)) => {
            proof {
                assert(x as i64 as u64 == x) by (bit_vector);
            }
            let v = #[verifier::truncate] (x as i64);
            Some((v, p2))
        },
    }
}

pub(crate) fn get_i32(buf: &Vec<u8>, pos: usize) -> (r: Option<(i32, usize)>)
    ensures
        match r {
            Some(p) => pos + 4 == p.1 && p.1 <= buf@.len()
                && buf@.subrange(pos as int, p.1 as int) == enc_i32(p.0),
            None => buf@.len() < pos + 4,
        },
{
    match get_u32(buf, pos) {
        None => None,
        Some((x, p2)) => {
            proof {
                assert(x as i32 as u32 == x) by (bit_vector);
            }
            let v = #[verifier::truncate] (x as i32);
            Some((v, p2))
        },
    }
}

pub(crate) fn get_opt_u64(buf: &Vec<u8>, pos: usize) -> (r: Option<(Option<u64>, usize)>)
    ensures
        match r {
            Some(p) => pos <= p.1 <= buf@.len()
                && buf@.subrange(pos as int, p.1 as int) == enc_opt_u64(p.0),
            None => true,
        },
{
    if pos >= buf.len() {
        return None;
    }
    let tag = buf[pos];
    if tag == 0 {
        proof {
            assert(buf@.subrange(pos as int, pos + 1) =~= enc_opt_u64(None::<u64>));
        }
        Some((None, pos + 1))
    } else if tag == 1 {
        match get_u64(buf, pos + 1) {
            None => None,
            Some((v, p2)) => {
                proof {
                    assert(buf@.subrange(pos as int, p2 as int)
                        =~= seq![1u8] + buf@.subrange(pos + 1, p2 as int));
                }
                Some((Some(v), p2))
            },
        }
    } else {
        None
    }
}

pub(crate) fn get_opt_i64(buf: &Vec<u8>, pos: usize) -> (r: Option<(Option<i64>, usize)>)
    ensures
        match r {
            Some(p) => pos <= p.1 <= buf@.len()
                && buf@.subrange(pos as int, p.1 as int) == enc_opt_i64(p.0),
            None => true,
        },
{
    if pos >= buf.len() {
        return None;
    }
    let tag = buf[pos];
    if tag == 0 {
        proof {
            assert(buf@.subrange(pos as int, pos + 1) =~= enc_opt_i64(None::<i64>));
        }
        Some((None, pos + 1))
    } else if tag == 1 {
        match get_i64(buf, pos + 1) {
            None => None,
            Some((v, p2)) => {
                proof {
                    assert(buf@.subrange(pos as int, p2 as int)
                        =~= seq![1u8] + buf@.subrange(pos + 1, p2 as int));
                }
                Some((Some(v), p2))
            },
        }
    } else {
        None
    }
}

pub(crate) fn get_byte_str(buf: &Vec<u8>, pos: usize) -> (r: Option<(Vec<u8>, usize)>)
    ensures
        match r {
            Some(p) => pos <= p.1 <= buf@.len()
                && buf@.subrange(pos as int, p.1 as int) == enc_byte_str(p.0@),
            None => true,
        },
{
    match get_u64(buf, pos) {
        None => None,
        Some((len, p1)) => {
            if len > (buf.len() - p1) as u64 {
                return None;
            }
            let n = len as usize;
            let mut v: Vec<u8> = Vec::new();
            for i in 0..n
                invariant
                    p1 + n <= buf@.len(),
                    buf@.len() <= usize::MAX,
                    v@ =~= buf@.subrange(p1 as int, p1 + i),
            {
                v.push(buf[p1 + i]);
                proof {
                    assert(v@ =~= buf@.subrange(p1 as int, p1 + i + 1));
                }
            }
            proof {
                assert(buf@.subrange(pos as int, p1 + n)
                    =~= buf@.subrange(pos as int, p1 as int) + buf@.subrange(p1 as int, p1 + n));
            }
            Some((v, p1 + n))
        },
    }
}

pub(crate) fn get_pos(buf: &Vec<u8>, pos: usize) -> (r: Option<(Position, usize)>)
    ensures
        match r {
            Some(p) => pos <= p.1 <= buf@.len()
                && buf@.subrange(pos as int, p.1 as int) == enc_pos(p.0),
            None => true,
        },
{
    match get_i32(buf, pos) {
        None => None,
        Some((lon, p1)) => match get_i32(buf, p1) {
            None => None,
            Some((lat, p2)) => {
                proof {
                    assert(buf@.subrange(pos as int, p2 as int)
                        =~= buf@.subrange(pos as int, p1 as int)
                            + buf@.subrange(p1 as int, p2 as int));
                }
                Some((Position { lon, lat }, p2))
            },
        },
    }
}

#[verifier::rlimit(100)]
fn get_edge(buf: &Vec<u8>, pos: usize) -> (r: Option<(EdgeKey, Edge, usize)>)
    ensures
        match r {
            Some(p) => pos <= p.2 <= buf@.len()
                && buf@.subrange(pos as int, p.2 as int) == enc_edge((p.0, p.1))
                && p.1.wf(),
            None => true,
        },
{
    let (from, p1) = match get_i64(buf, pos) {
        Some(v) => v,
        None => return None,
    };
    let (to, p2) = match get_i64(buf, p1) {
        Some(v) => v,
        None => return None,
    };
    let (way, p3) = match get_i64(buf, p2) {
        Some(v) => v,
        None => return None,
    };
    let (tag_count, p4) = match get_u64(buf, p3) {
        Some(v) => v,
        None => return None,
    };
    let mut tags: Vec<Tag> = Vec::new();
    let mut p5 = p4;
    let mut done: u64 = 0;
    while done < tag_count
        invariant
            done <= tag_count,
            pos <= p4 <= p5 <= buf@.len(),
            tags@.len() == done,
            buf@.subrange(p4 as int, p5 as int) == enc_tags(tags@),
        decreases tag_count - done,
    {
        let (key, q1) = match get_byte_str(buf, p5) {
            Some(v) => v,
            None => return None,
        };
        let (value, q2) = match get_byte_str(buf, q1) {
            Some(v) => v,
            None => return None,
        };
        let t = Tag { key, value };
        proof {
            assert(buf@.subrange(p5 as int, q2 as int)
                =~= buf@.subrange(p5 as int, q1 as int) + buf@.subrange(q1 as int, q2 as int));
            assert(buf@.subrange(p4 as int, q2 as int)
                =~= buf@.subrange(p4 as int, p5 as int) + buf@.subrange(p5 as int, q2 as int));
            assert(tags@.push(t).drop_last() =~= tags@);
        }
        tags.push(t);
        p5 = q2;
        done = done + 1;
    }
    let (geom_count, p6) = match get_u64(buf, p5) {
        Some(v) => v,
        None => return None,
    };
    let mut geometry: Vec<Position> = Vec::new();
    let mut p7 = p6;
    let mut gdone: u64 = 0;
    while gdone < geom_count
        invariant
            gdone <= geom_count,
            pos <= p6 <= p7 <= buf@.len(),
            geometry@.len() == gdone,
            buf@.subrange(p6 as int, p7 as int) == enc_positions(geometry@),
        decreases geom_count - gdone,
    {
        let (g, q1) = match get_pos(buf, p7) {
            Some(v) => v,
            None => return None,
        };
        proof {
            assert(buf@.subrange(p6 as int, q1 as int)
                =~= buf@.subrange(p6 as int, p7 as int) + buf@.subrange(p7 as int, q1 as int));
            assert(geometry@.push(g).drop_last() =~= geometry@);
        }
        geometry.push(g);
        p7 = q1;
        gdone = gdone + 1;
    }
    let (slope, p8) = match get_opt_i64(buf, p7) {
        Some(v) => v,
        None => return None,
    };
    if p8 >= buf.len() {
        return None;
    }
    let ftag = buf[p8];
    let (slope_factor, p9): (Option<(SlopeFactor, SlopeFactor)>, usize) = if ftag == 0 {
        (None, p8 + 1)
    } else if ftag == 1 {
        let (fnum, q1) = match get_u64(buf, p8 + 1) {
            Some(v) => v,
            None => return None,
        };
        let (fden, q2) = match get_u64(buf, q1) {
            Some(v) => v,
            None => return None,
        };
        let (bnum, q3) = match get_u64(buf, q2) {
            Some(v) => v,
            None => return None,
        };
        let (bden, q4) = match get_u64(buf, q3) {
            Some(v) => v,
            None => return None,
        };
        (
            Some((SlopeFactor { num: fnum, den: fden }, SlopeFactor { num: bnum, den: bden })),
            q4,
        )
    } else {
        return None;
    };
    proof {
        if ftag == 1 {
            assert(buf@.subrange(p8 as int, p9 as int)
                =~= seq![1u8] + buf@.subrange(p8 + 1, p8 + 9) + buf@.subrange(p8 + 9, p8 + 17)
                    + buf@.subrange(p8 + 17, p8 + 25) + buf@.subrange(p8 + 25, p8 + 33));
        } else {
            assert(buf@.subrange(p8 as int, p9 as int) =~= seq![0u8]);
        }
        assert(buf@.subrange(p8 as int, p9 as int) == enc_opt_factors(slope_factor));
    }
    let (length_mm, p10) = match get_u64(buf, p9) {
        Some(v) => v,
        None => return None,
    };
    if p10 >= buf.len() {
        return None;
    }
    let lts = match Lts::from_index(buf[p10]) {
        Some(l) => l,
        None => return None,
    };
    let p11 = p10 + 1;
    let (forward_cost, p12) = match get_opt_u64(buf, p11) {
        Some(v) => v,
        None => return None,
    };
    let (backward_cost, p13) = match get_opt_u64(buf, p12) {
        Some(v) => v,
        None => return None,
    };
    let (nearby_amenities, p14) = match get_u64(buf, p13) {
        Some(v) => v,
        None => return None,
    };
    match forward_cost {
        Some(c) => if c > COST_CAP {
            return None;
        },
        None => {},
    }
    match backward_cost {
        Some(c) => if c > COST_CAP {
            return None;
        },
        None => {},
    }
    let k = EdgeKey { from: NodeId(from), to: NodeId(to) };
    let e = Edge {
        way_id: WayId(way),
        tags,
        geometry,
        slope,
        slope_factor,
        length_mm,
        lts,
        forward_cost,
        backward_cost,
        nearby_amenities,
    };
    proof {
        assert(buf@.subrange(p10 as int, p11 as int) =~= seq![e.lts.as_index() as u8]);
        assert(buf@.subrange(pos as int, p2 as int)
            =~= buf@.subrange(pos as int, p1 as int) + buf@.subrange(p1 as int, p2 as int));
        assert(buf@.subrange(pos as int, p3 as int)
            =~= buf@.subrange(pos as int, p2 as int) + buf@.subrange(p2 as int, p3 as int));
        assert(buf@.subrange(pos as int, p4 as int)
            =~= buf@.subrange(pos as int, p3 as int) + buf@.subrange(p3 as int, p4 as int));
        assert(buf@.subrange(pos as int, p5 as int)
            =~= buf@.subrange(pos as int, p4 as int) + buf@.subrange(p4 as int, p5 as int));
        assert(buf@.subrange(pos as int, p6 as int)
            =~= buf@.subrange(pos as int, p5 as int) + buf@.subrange(p5 as int, p6 as int));
        assert(buf@.subrange(pos as int, p7 as int)
            =~= buf@.subrange(pos as int, p6 as int) + buf@.subrange(p6 as int, p7 as int));
        assert(buf@.subrange(pos as int, p8 as int)
            =~= buf@.subrange(pos as int, p7 as int) + buf@.subrange(p7 as int, p8 as int));
        assert(buf@.subrange(pos as int, p9 as int)
            =~= buf@.subrange(pos as int, p8 as int) + buf@.subrange(p8 as int, p9 as int));
        assert(buf@.subrange(pos as int, p10 as int)
            =~= buf@.subrange(pos as int, p9 as int) + buf@.subrange(p9 as int, p10 as int));
        assert(buf@.subrange(pos as int, p11 as int)
            =~= buf@.subrange(pos as int, p10 as int) + buf@.subrange(p10 as int, p11 as int));
        assert(buf@.subrange(pos as int, p12 as int)
            =~= buf@.subrange(pos as int, p11 as int) + buf@.subrange(p11 as int, p12 as int));
        assert(buf@.subrange(pos as int, p13 as int)
            =~= buf@.subrange(pos as int, p12 as int) + buf@.subrange(p12 as int, p13 as int));
        assert(buf@.subrange(pos as int, p14 as int)
            =~= buf@.subrange(pos as int, p13 as int) + buf@.subrange(p13 as int, p14 as int));
    }
    Some((k, e, p14))
}

impl Network {
    /// Serialize this network to its binary cache image.  The image is
    /// exactly `enc_network` over the stored entry order, so an equal
    /// network decodes back from it.
    #[verifier::rlimit(100)]
    pub fn save_to_bin(&self) -> (r: Vec<u8>)
        requires
            self.wf(),
        ensures
            r@ == enc_network(self.intersections.entry_seq(), self.edges.entry_seq()),
    {
        let mut out: Vec<u8> = Vec::new();
        put_u64(&mut out, CACHE_MAGIC);
        let ientries = self.intersections.entries();
        let n = ientries.len();
        put_u64(&mut out, n as u64);
        let ghost imid = out@;
        for i in 0..n
            invariant
                n == ientries@.len(),
                ientries@ == self.intersections.entry_seq(),
                out@ == imid + enc_nodes(ientries@.take(i as int)),
        {
            let (id, p) = ientries[i];
            put_u64(&mut out, id.0 as u64);
            put_pos(&mut out, p);
            proof {
                assert(ientries@.take(i + 1).drop_last() =~= ientries@.take(i as int));
                assert(out@ =~= imid + enc_nodes(ientries@.take(i + 1)));
            }
        }
        proof {
            assert(ientries@.take(n as int) =~= ientries@);
        }
        let eentries = self.edges.entries();
        let m = eentries.len();
        put_u64(&mut out, m as u64);
        let ghost emid = out@;
        for i in 0..m
            invariant
                m == eentries@.len(),
                eentries@ == self.edges.entry_seq(),
                out@ == emid + enc_edges(eentries@.take(i as int)),
        {
            let k = eentries[i].0;
            put_edge(&mut out, k, &eentries[i].1);
            proof {
                assert(eentries@.take(i + 1).drop_last() =~= eentries@.take(i as int));
                assert(out@ =~= emid + enc_edges(eentries@.take(i + 1)));
            }
        }
        proof {
            assert(eentries@.take(m as int) =~= eentries@);
            assert(out@ =~= enc_network(self.intersections.entry_seq(), self.edges.entry_seq()));
        }
        out
    }

    /// Deserialize a cached binary network.  `None` contents (a
    /// missing file) and undecodable contents both yield a
    /// `CacheUnavailable`, which a caller treats as "must rebuild",
    /// never as fatal.  A decoded network is well formed and its cache
    /// image is exactly the given bytes.
    #[verifier::rlimit(100)]
    pub fn load_from_bin(data: Option<&Vec<u8>>) -> (r: Result<Network, CacheUnavailable>)
        ensures
            match r {
                Ok(n) => n.wf() && match data {
                    Some(b) => b@ == enc_network(n.intersections.entry_seq(), n.edges.entry_seq()),
                    None => false,
                },
                Err(e) => (e == CacheUnavailable::Missing <==> data is None),
            },
    {
        let buf = match data {
            None => {
                return Err(CacheUnavailable::Missing);
            },
            Some(b) => b,
        };
        let (magic, p0) = match get_u64(buf, 0) {
            Some(v) => v,
            None => return Err(CacheUnavailable::Corrupt),
        };
        if magic != CACHE_MAGIC {
            return Err(CacheUnavailable::Corrupt);
        }
        let (node_count, p1) = match get_u64(buf, p0) {
            Some(v) => v,
            None => return Err(CacheUnavailable::Corrupt),
        };
        let mut intersections: KeyedVec<NodeId, Position> = KeyedVec::new();
        let mut pos = p1;
        let mut done: u64 = 0;
        while done < node_count
            invariant
                data is Some,
                done <= node_count,
                p1 <= pos <= buf@.len(),
                intersections.wf(),
                intersections.entry_seq().len() == done,
                buf@.subrange(p1 as int, pos as int) == enc_nodes(intersections.entry_seq()),
            decreases node_count - done,
        {
            let (idv, q1) = match get_i64(buf, pos) {
                Some(v) => v,
                None => return Err(CacheUnavailable::Corrupt),
            };
            let (p, q2) = match get_pos(buf, q1) {
                Some(v) => v,
                None => return Err(CacheUnavailable::Corrupt),
            };
            let id = NodeId(idv);
            match intersections.get(&id) {
                Some(_) => return Err(CacheUnavailable::Corrupt),
                None => {},
            }
            proof {
                assert(buf@.subrange(pos as int, q2 as int)
                    =~= buf@.subrange(pos as int, q1 as int)
                        + buf@.subrange(q1 as int, q2 as int));
                assert(buf@.subrange(p1 as int, q2 as int)
                    =~= buf@.subrange(p1 as int, pos as int)
                        + buf@.subrange(pos as int, q2 as int));
                assert(intersections.entry_seq().push((id, p)).drop_last()
                    =~= intersections.entry_seq());
            }
            intersections.push_absent(id, p);
            pos = q2;
            done = done + 1;
        }
        let (edge_count, p2) = match get_u64(buf, pos) {
            Some(v) => v,
            None => return Err(CacheUnavailable::Corrupt),
        };
        let ghost ebase = p2;
        let mut edges: KeyedVec<EdgeKey, Edge> = KeyedVec::new();
        let mut epos = p2;
        let mut edone: u64 = 0;
        while edone < edge_count
            invariant
                data is Some,
                edone <= edge_count,
                ebase <= epos <= buf@.len(),
                edges.wf(),
                edges.entry_seq().len() == edone,
                buf@.subrange(ebase as int, epos as int) == enc_edges(edges.entry_seq()),
                forall|k: EdgeKey|
                    #[trigger] edges@.contains_key(k) ==> edges@[k].wf(),
            decreases edge_count - edone,
        {
            let (k, e, q1) = match get_edge(buf, epos) {
                Some(v) => v,
                None => return Err(CacheUnavailable::Corrupt),
            };
            match edges.get(&k) {
                Some(_) => return Err(CacheUnavailable::Corrupt),
                None => {},
            }
            proof {
                assert(buf@.subrange(ebase as int, q1 as int)
                    =~= buf@.subrange(ebase as int, epos as int)
                        + buf@.subrange(epos as int, q1 as int));
                assert(edges.entry_seq().push((k, e)).drop_last() =~= edges.entry_seq());
            }
            edges.push_absent(k, e);
            epos = q1;
            edone = edone + 1;
        }
        if epos != buf.len() {
            return Err(CacheUnavailable::Corrupt);
        }
        let n = Network { edges, intersections };
        proof {
            assert(buf@.subrange(0, p1 as int)
                =~= buf@.subrange(0, p0 as int) + buf@.subrange(p0 as int, p1 as int));
            assert(buf@.subrange(0, pos as int)
                =~= buf@.subrange(0, p1 as int) + buf@.subrange(p1 as int, pos as int));
            assert(buf@.subrange(0, p2 as int)
                =~= buf@.subrange(0, pos as int) + buf@.subrange(pos as int, p2 as int));
            assert(buf@.subrange(0, epos as int)
                =~= buf@.subrange(0, p2 as int) + buf@.subrange(p2 as int, epos as int));
            assert(buf@.subrange(0, buf@.len() as int) =~= buf@);
            assert(buf@ == enc_network(n.intersections.entry_seq(), n.edges.entry_seq()));
        }
        Ok(n)
    }
}

} // verus!
