//! The persistence codec: a compiled chain laid out as bytes, and the
//! parse that reads it back. Integers are little-endian; a symbol is a
//! 32-bit code (a Unicode scalar value, or one of two sentinel codes just
//! above the scalar range); decoding validates everything it reads and
//! accepts exactly the encodings of well-formed chains.

use crate::model::entry_fits;
use crate::model::entry_wf;
use crate::model::listing_wf;
use crate::symbol::ctx_wf;
use crate::symbol::next_sym_ok;
use crate::model::CharCounter;
use crate::model::CharkovChain;
use crate::symbol::Context;
use crate::symbol::Symbol;
use vstd::prelude::*;
use vstd::utf8::char_is_scalar;
use vstd::utf8::char_u32_cast;
use vstd::utf8::is_scalar;

verus! {

/// The sentinel code for the start boundary: just above the scalar range.
pub open spec fn start_code() -> u32 {
    0x110000
}

/// The sentinel code for the end boundary.
pub open spec fn end_code() -> u32 {
    0x110001
}

/// The 32-bit code of a symbol.
pub open spec fn sym_code(s: Symbol) -> u32 {
    match s {
        Symbol::Start => start_code(),
        Symbol::End => end_code(),
        Symbol::Letter(c) => c as u32,
    }
}

/// The symbol a 32-bit code denotes, if any.
pub open spec fn parse_sym(v: u32) -> Option<Symbol> {
    if v == start_code() {
        Some(Symbol::Start)
    } else if v == end_code() {
        Some(Symbol::End)
    } else if is_scalar(v) {
        Some(Symbol::Letter(v as char))
    } else {
        None
    }
}

/// Symbol codes survive the round trip.
pub proof fn lemma_sym_code_round(s: Symbol)
    ensures
        parse_sym(sym_code(s)) == Some(s),
{
    broadcast use char_is_scalar, char_u32_cast;

}

/// The four little-endian bytes of a 32-bit value.
pub open spec fn enc_u32(v: u32) -> Seq<u8> {
    seq![
        (v & 0xff) as u8,
        ((v >> 8) & 0xff) as u8,
        ((v >> 16) & 0xff) as u8,
        ((v >> 24) & 0xff) as u8,
    ]
}

/// The eight little-endian bytes of a 64-bit value.
pub open spec fn enc_u64(v: u64) -> Seq<u8> {
    seq![
        (v & 0xff) as u8,
        ((v >> 8) & 0xff) as u8,
        ((v >> 16) & 0xff) as u8,
        ((v >> 24) & 0xff) as u8,
        ((v >> 32) & 0xff) as u8,
        ((v >> 40) & 0xff) as u8,
        ((v >> 48) & 0xff) as u8,
        ((v >> 56) & 0xff) as u8,
    ]
}

/// The 32-bit value whose little-endian bytes start at `off`.
pub open spec fn dec_u32(b: Seq<u8>, off: int) -> u32 {
    (b[off] as u32) | ((b[off + 1] as u32) << 8) | ((b[off + 2] as u32) << 16) | ((b[off + 3]
        as u32) << 24)
}

/// The 64-bit value whose little-endian bytes start at `off`.
pub open spec fn dec_u64(b: Seq<u8>, off: int) -> u64 {
    (b[off] as u64) | ((b[off + 1] as u64) << 8) | ((b[off + 2] as u64) << 16) | ((b[off + 3]
        as u64) << 24) | ((b[off + 4] as u64) << 32) | ((b[off + 5] as u64) << 40) | ((b[off + 6]
        as u64) << 48) | ((b[off + 7] as u64) << 56)
}

/// Little-endian 32-bit values survive the round trip.
pub proof fn lemma_u32_round(v: u32, b: Seq<u8>, off: int)
    requires
        0 <= off,
        off + 4 <= b.len(),
        b[off] == (v & 0xff) as u8,
        b[off + 1] == ((v >> 8) & 0xff) as u8,
        b[off + 2] == ((v >> 16) & 0xff) as u8,
        b[off + 3] == ((v >> 24) & 0xff) as u8,
    ensures
        dec_u32(b, off) == v,
{
    let b0 = b[off];
    let b1 = b[off + 1];
    let b2 = b[off + 2];
    let b3 = b[off + 3];
    assert((((v & 0xff) as u8) as u32) | ((((v >> 8) & 0xff) as u8 as u32) << 8) | ((((v >> 16)
        & 0xff) as u8 as u32) << 16) | ((((v >> 24) & 0xff) as u8 as u32) << 24) == v)
        by (bit_vector);
    assert(dec_u32(b, off) == (b0 as u32) | ((b1 as u32) << 8) | ((b2 as u32) << 16) | ((b3
        as u32) << 24));
}

/// Little-endian 64-bit values survive the round trip.
pub proof fn lemma_u64_round(v: u64, b: Seq<u8>, off: int)
    requires
        0 <= off,
        off + 8 <= b.len(),
        b[off] == (v & 0xff) as u8,
        b[off + 1] == ((v >> 8) & 0xff) as u8,
        b[off + 2] == ((v >> 16) & 0xff) as u8,
        b[off + 3] == ((v >> 24) & 0xff) as u8,
        b[off + 4] == ((v >> 32) & 0xff) as u8,
        b[off + 5] == ((v >> 40) & 0xff) as u8,
        b[off + 6] == ((v >> 48) & 0xff) as u8,
        b[off + 7] == ((v >> 56) & 0xff) as u8,
    ensures
        dec_u64(b, off) == v,
{
    let b0 = b[off];
    let b1 = b[off + 1];
    let b2 = b[off + 2];
    let b3 = b[off + 3];
    let b4 = b[off + 4];
    let b5 = b[off + 5];
    let b6 = b[off + 6];
    let b7 = b[off + 7];
    assert((((v & 0xff) as u8) as u64) | ((((v >> 8) & 0xff) as u8 as u64) << 8) | ((((v >> 16)
        & 0xff) as u8 as u64) << 16) | ((((v >> 24) & 0xff) as u8 as u64) << 24) | ((((v >> 32)
        & 0xff) as u8 as u64) << 32) | ((((v >> 40) & 0xff) as u8 as u64) << 40) | ((((v >> 48)
        & 0xff) as u8 as u64) << 48) | ((((v >> 56) & 0xff) as u8 as u64) << 56) == v)
        by (bit_vector);
    assert(dec_u64(b, off) == (b0 as u64) | ((b1 as u64) << 8) | ((b2 as u64) << 16) | ((b3
        as u64) << 24) | ((b4 as u64) << 32) | ((b5 as u64) << 40) | ((b6 as u64) << 48) | ((b7
        as u64) << 56));
}

/// A 32-bit value read back from its bytes lying inside a larger buffer.
pub proof fn lemma_dec_u32_window(b: Seq<u8>, off: int, v: u32)
    requires
        0 <= off,
        off + 4 <= b.len(),
        b.subrange(off, off + 4) == enc_u32(v),
    ensures
        dec_u32(b, off) == v,
{
    assert(b[off] == enc_u32(v)[0]) by {
        assert(b.subrange(off, off + 4)[0] == b[off + 0]);
    }
    assert(b[off + 1] == enc_u32(v)[1]) by {
        assert(b.subrange(off, off + 4)[1] == b[off + 1]);
    }
    assert(b[off + 2] == enc_u32(v)[2]) by {
        assert(b.subrange(off, off + 4)[2] == b[off + 2]);
    }
    assert(b[off + 3] == enc_u32(v)[3]) by {
        assert(b.subrange(off, off + 4)[3] == b[off + 3]);
    }
    lemma_u32_round(v, b, off);
}

/// A 64-bit value read back from its bytes lying inside a larger buffer.
pub proof fn lemma_dec_u64_window(b: Seq<u8>, off: int, v: u64)
    requires
        0 <= off,
        off + 8 <= b.len(),
        b.subrange(off, off + 8) == enc_u64(v),
    ensures
        dec_u64(b, off) == v,
{
    assert(b[off] == enc_u64(v)[0]) by {
        assert(b.subrange(off, off + 8)[0] == b[off + 0]);
    }
    assert(b[off + 1] == enc_u64(v)[1]) by {
        assert(b.subrange(off, off + 8)[1] == b[off + 1]);
    }
    assert(b[off + 2] == enc_u64(v)[2]) by {
        assert(b.subrange(off, off + 8)[2] == b[off + 2]);
    }
    assert(b[off + 3] == enc_u64(v)[3]) by {
        assert(b.subrange(off, off + 8)[3] == b[off + 3]);
    }
    assert(b[off + 4] == enc_u64(v)[4]) by {
        assert(b.subrange(off, off + 8)[4] == b[off + 4]);
    }
    assert(b[off + 5] == enc_u64(v)[5]) by {
        assert(b.subrange(off, off + 8)[5] == b[off + 5]);
    }
    assert(b[off + 6] == enc_u64(v)[6]) by {
        assert(b.subrange(off, off + 8)[6] == b[off + 6]);
    }
    assert(b[off + 7] == enc_u64(v)[7]) by {
        assert(b.subrange(off, off + 8)[7] == b[off + 7]);
    }
    lemma_u64_round(v, b, off);
}

/// A piece of the window equality: any sub-window of a matched window
/// matches the corresponding slice of the encoded bytes.
proof fn lemma_sub_window(b: Seq<u8>, off: int, all: Seq<u8>, lo: int, hi: int)
    requires
        0 <= off,
        off + all.len() <= b.len(),
        b.subrange(off, off + all.len()) == all,
        0 <= lo <= hi <= all.len(),
    ensures
        b.subrange(off + lo, off + hi) == all.subrange(lo, hi),
{
    assert forall|k: int| 0 <= k < hi - lo implies b.subrange(off + lo, off + hi)[k]
        == all.subrange(lo, hi)[k] by {
        assert(b.subrange(off + lo, off + hi)[k] == b[off + lo + k]);
        assert(b.subrange(off, off + all.len())[lo + k] == b[off + (lo + k)]);
    }
    assert(b.subrange(off + lo, off + hi) =~= all.subrange(lo, hi));
}

/// The bytes of one symbol/count pair.
pub open spec fn pair_bytes(p: (Symbol, u32)) -> Seq<u8> {
    enc_u32(sym_code(p.0)) + enc_u32(p.1)
}

/// The bytes of a run of pairs, in order.
pub open spec fn enc_pairs(ps: Seq<(Symbol, u32)>) -> Seq<u8>
    decreases ps.len(),
{
    if ps.len() == 0 {
        Seq::empty()
    } else {
        enc_pairs(ps.drop_last()) + pair_bytes(ps.last())
    }
}

/// The bytes of one transition entry: both context symbols, the number of
/// pairs, then the pairs.
pub open spec fn entry_bytes(e: (Context, Seq<(Symbol, u32)>)) -> Seq<u8> {
    enc_u32(sym_code(e.0.fst)) + enc_u32(sym_code(e.0.snd)) + enc_u64(e.1.len() as u64)
        + enc_pairs(e.1)
}

/// The bytes of a run of entries, in order.
pub open spec fn enc_entries(es: Seq<(Context, Seq<(Symbol, u32)>)>) -> Seq<u8>
    decreases es.len(),
{
    if es.len() == 0 {
        Seq::empty()
    } else {
        enc_entries(es.drop_last()) + entry_bytes(es.last())
    }
}

/// The bytes of a run of characters, one 32-bit code each.
pub open spec fn enc_chars(w: Seq<char>) -> Seq<u8>
    decreases w.len(),
{
    if w.len() == 0 {
        Seq::empty()
    } else {
        enc_chars(w.drop_last()) + enc_u32(w.last() as u32)
    }
}

/// The bytes of one word: its character count, then its characters.
pub open spec fn word_bytes(w: Seq<char>) -> Seq<u8> {
    enc_u64(w.len() as u64) + enc_chars(w)
}

/// The bytes of a run of words, in order.
pub open spec fn enc_words(ws: Seq<Seq<char>>) -> Seq<u8>
    decreases ws.len(),
{
    if ws.len() == 0 {
        Seq::empty()
    } else {
        enc_words(ws.drop_last()) + word_bytes(ws.last())
    }
}

/// The four magic bytes that open every encoded chain.
pub open spec fn magic() -> Seq<u8> {
    seq![0x46u8, 0x43u8, 0x4du8, 0x31u8]
}

/// The full encoding of a chain's entries and words.
pub open spec fn encoded(es: Seq<(Context, Seq<(Symbol, u32)>)>, ws: Seq<Seq<char>>) -> Seq<u8> {
    magic() + enc_u64(es.len() as u64) + enc_entries(es) + enc_u64(ws.len() as u64) + enc_words(ws)
}


/// Parse `n` pairs at `off`: the pairs and the offset just after them.
pub open spec fn parse_pairs(b: Seq<u8>, off: int, n: nat) -> Option<(Seq<(Symbol, u32)>, int)>
    decreases n,
{
    if n == 0 {
        Some((Seq::empty(), off))
    } else if 0 <= off && off + 8 <= b.len() {
        match parse_sym(dec_u32(b, off)) {
            Some(sy) => match parse_pairs(b, off + 8, (n - 1) as nat) {
                Some(r) => Some((seq![(sy, dec_u32(b, off + 4))] + r.0, r.1)),
                None => None,
            },
            None => None,
        }
    } else {
        None
    }
}

/// Parse `n` entries at `off`.
pub open spec fn parse_entries(b: Seq<u8>, off: int, n: nat) -> Option<
    (Seq<(Context, Seq<(Symbol, u32)>)>, int),
>
    decreases n,
{
    if n == 0 {
        Some((Seq::empty(), off))
    } else if 0 <= off && off + 16 <= b.len() {
        match (parse_sym(dec_u32(b, off)), parse_sym(dec_u32(b, off + 4))) {
            (Some(f), Some(sn)) => match parse_pairs(b, off + 16, dec_u64(b, off + 8) as nat) {
                Some(pr) => match parse_entries(b, pr.1, (n - 1) as nat) {
                    Some(er) => Some((seq![(Context { fst: f, snd: sn }, pr.0)] + er.0, er.1)),
                    None => None,
                },
                None => None,
            },
            _ => None,
        }
    } else {
        None
    }
}

/// Parse `n` characters at `off`.
pub open spec fn parse_chars(b: Seq<u8>, off: int, n: nat) -> Option<(Seq<char>, int)>
    decreases n,
{
    if n == 0 {
        Some((Seq::empty(), off))
    } else if 0 <= off && off + 4 <= b.len() && is_scalar(dec_u32(b, off)) {
        match parse_chars(b, off + 4, (n - 1) as nat) {
            Some(r) => Some((seq![dec_u32(b, off) as char] + r.0, r.1)),
            None => None,
        }
    } else {
        None
    }
}

/// Parse `n` words at `off`.
pub open spec fn parse_words(b: Seq<u8>, off: int, n: nat) -> Option<(Seq<Seq<char>>, int)>
    decreases n,
{
    if n == 0 {
        Some((Seq::empty(), off))
    } else if 0 <= off && off + 8 <= b.len() {
        match parse_chars(b, off + 8, dec_u64(b, off) as nat) {
            Some(cr) => match parse_words(b, cr.1, (n - 1) as nat) {
                Some(wr) => Some((seq![cr.0] + wr.0, wr.1)),
                None => None,
            },
            None => None,
        }
    } else {
        None
    }
}

/// Parse a whole encoded chain: the magic bytes, the entries, the words,
/// and nothing after them.
pub open spec fn parse_all(b: Seq<u8>) -> Option<
    (Seq<(Context, Seq<(Symbol, u32)>)>, Seq<Seq<char>>),
> {
    if b.len() >= 12 && b.subrange(0, 4) == magic() {
        match parse_entries(b, 12, dec_u64(b, 4) as nat) {
            Some(er) => if er.1 + 8 <= b.len() {
                match parse_words(b, er.1 + 8, dec_u64(b, er.1) as nat) {
                    Some(wr) => if wr.1 == b.len() {
                        Some((er.0, wr.0))
                    } else {
                        None
                    },
                    None => None,
                }
            } else {
                None
            },
            None => None,
        }
    } else {
        None
    }
}

/// A parsed chain the decoder accepts: structurally well formed, and with
/// every entry's weights within the sampler builder's arithmetic.
pub open spec fn decodable(b: Seq<u8>) -> bool {
    match parse_all(b) {
        Some(m) => listing_wf(m.0, m.1) && (forall|i: int|
            0 <= i < m.0.len() ==> entry_fits((#[trigger] m.0[i]).1)),
        None => false,
    }
}

/// All the listing's counts fit the 64-bit length fields of the format.
pub open spec fn sizes_bounded(
    es: Seq<(Context, Seq<(Symbol, u32)>)>,
    ws: Seq<Seq<char>>,
) -> bool {
    &&& es.len() <= u64::MAX
    &&& forall|i: int| 0 <= i < es.len() ==> (#[trigger] es[i]).1.len() <= u64::MAX
    &&& ws.len() <= u64::MAX
    &&& forall|i: int| 0 <= i < ws.len() ==> (#[trigger] ws[i]).len() <= u64::MAX
}

proof fn lemma_enc_pairs_first(ps: Seq<(Symbol, u32)>)
    requires
        ps.len() > 0,
    ensures
        enc_pairs(ps) == pair_bytes(ps[0]) + enc_pairs(ps.drop_first()),
    decreases ps.len(),
{
    if ps.len() == 1 {
        assert(ps.drop_last() =~= Seq::<(Symbol, u32)>::empty());
        assert(ps.drop_first() =~= Seq::<(Symbol, u32)>::empty());
        assert(enc_pairs(ps) =~= pair_bytes(ps[0]) + enc_pairs(ps.drop_first()));
    } else {
        lemma_enc_pairs_first(ps.drop_last());
        assert(ps.drop_last().drop_first() =~= ps.drop_first().drop_last());
        assert(ps.drop_first().last() == ps.last());
        assert(enc_pairs(ps) =~= pair_bytes(ps[0]) + enc_pairs(ps.drop_first()));
    }
}

proof fn lemma_enc_entries_first(es: Seq<(Context, Seq<(Symbol, u32)>)>)
    requires
        es.len() > 0,
    ensures
        enc_entries(es) == entry_bytes(es[0]) + enc_entries(es.drop_first()),
    decreases es.len(),
{
    if es.len() == 1 {
        assert(es.drop_last() =~= Seq::<(Context, Seq<(Symbol, u32)>)>::empty());
        assert(es.drop_first() =~= Seq::<(Context, Seq<(Symbol, u32)>)>::empty());
        assert(enc_entries(es) =~= entry_bytes(es[0]) + enc_entries(es.drop_first()));
    } else {
        lemma_enc_entries_first(es.drop_last());
        assert(es.drop_last().drop_first() =~= es.drop_first().drop_last());
        assert(es.drop_first().last() == es.last());
        assert(enc_entries(es) =~= entry_bytes(es[0]) + enc_entries(es.drop_first()));
    }
}

proof fn lemma_enc_chars_first(w: Seq<char>)
    requires
        w.len() > 0,
    ensures
        enc_chars(w) == enc_u32(w[0] as u32) + enc_chars(w.drop_first()),
    decreases w.len(),
{
    if w.len() == 1 {
        assert(w.drop_last() =~= Seq::<char>::empty());
        assert(w.drop_first() =~= Seq::<char>::empty());
        assert(enc_chars(w) =~= enc_u32(w[0] as u32) + enc_chars(w.drop_first()));
    } else {
        lemma_enc_chars_first(w.drop_last());
        assert(w.drop_last().drop_first() =~= w.drop_first().drop_last());
        assert(w.drop_first().last() == w.last());
        assert(enc_chars(w) =~= enc_u32(w[0] as u32) + enc_chars(w.drop_first()));
    }
}

proof fn lemma_enc_words_first(ws: Seq<Seq<char>>)
    requires
        ws.len() > 0,
    ensures
        enc_words(ws) == word_bytes(ws[0]) + enc_words(ws.drop_first()),
    decreases ws.len(),
{
    if ws.len() == 1 {
        assert(ws.drop_last() =~= Seq::<Seq<char>>::empty());
        assert(ws.drop_first() =~= Seq::<Seq<char>>::empty());
        assert(enc_words(ws) =~= word_bytes(ws[0]) + enc_words(ws.drop_first()));
    } else {
        lemma_enc_words_first(ws.drop_last());
        assert(ws.drop_last().drop_first() =~= ws.drop_first().drop_last());
        assert(ws.drop_first().last() == ws.last());
        assert(enc_words(ws) =~= word_bytes(ws[0]) + enc_words(ws.drop_first()));
    }
}

proof fn lemma_parse_pairs_round(b: Seq<u8>, off: int, ps: Seq<(Symbol, u32)>)
    requires
        0 <= off,
        off + enc_pairs(ps).len() <= b.len(),
        b.subrange(off, off + enc_pairs(ps).len()) == enc_pairs(ps),
    ensures
        parse_pairs(b, off, ps.len()) == Some((ps, off + enc_pairs(ps).len())),
    decreases ps.len(),
{
    let all = enc_pairs(ps);
    if ps.len() == 0 {
        assert(all.len() == 0);
    } else {
        lemma_enc_pairs_first(ps);
        let pb = pair_bytes(ps[0]);
        let rest = enc_pairs(ps.drop_first());
        assert(pb.len() == 8);
        lemma_sub_window(b, off, all, 0, 4);
        assert(all.subrange(0, 4) =~= enc_u32(sym_code(ps[0].0)));
        lemma_dec_u32_window(b, off, sym_code(ps[0].0));
        lemma_sym_code_round(ps[0].0);
        lemma_sub_window(b, off, all, 4, 8);
        assert(all.subrange(4, 8) =~= enc_u32(ps[0].1));
        lemma_dec_u32_window(b, off + 4, ps[0].1);
        lemma_sub_window(b, off, all, 8, all.len() as int);
        assert(all.subrange(8, all.len() as int) =~= rest);
        lemma_parse_pairs_round(b, off + 8, ps.drop_first());
        assert(ps[0] == (ps[0].0, ps[0].1));
        assert(seq![(ps[0].0, ps[0].1)] + ps.drop_first() =~= ps);
    }
}

proof fn lemma_parse_chars_round(b: Seq<u8>, off: int, w: Seq<char>)
    requires
        0 <= off,
        off + enc_chars(w).len() <= b.len(),
        b.subrange(off, off + enc_chars(w).len()) == enc_chars(w),
    ensures
        parse_chars(b, off, w.len()) == Some((w, off + enc_chars(w).len())),
    decreases w.len(),
{
    let all = enc_chars(w);
    if w.len() == 0 {
        assert(all.len() == 0);
    } else {
        lemma_enc_chars_first(w);
        let rest = enc_chars(w.drop_first());
        lemma_sub_window(b, off, all, 0, 4);
        assert(all.subrange(0, 4) =~= enc_u32(w[0] as u32));
        lemma_dec_u32_window(b, off, w[0] as u32);
        char_is_scalar(w[0]);
        char_u32_cast(w[0], w[0] as u32);
        assert(is_scalar(dec_u32(b, off)));
        assert(dec_u32(b, off) as char == w[0]);
        lemma_sub_window(b, off, all, 4, all.len() as int);
        assert(all.subrange(4, all.len() as int) =~= rest);
        lemma_parse_chars_round(b, off + 4, w.drop_first());
        assert(seq![w[0]] + w.drop_first() =~= w);
    }
}

#[verifier::rlimit(60)]
proof fn lemma_parse_entries_round(b: Seq<u8>, off: int, es: Seq<(Context, Seq<(Symbol, u32)>)>)
    requires
        0 <= off,
        off + enc_entries(es).len() <= b.len(),
        b.subrange(off, off + enc_entries(es).len()) == enc_entries(es),
        forall|i: int| 0 <= i < es.len() ==> (#[trigger] es[i]).1.len() <= u64::MAX,
    ensures
        parse_entries(b, off, es.len()) == Some((es, off + enc_entries(es).len())),
    decreases es.len(),
{
    let all = enc_entries(es);
    if es.len() == 0 {
        assert(all.len() == 0);
    } else {
        lemma_enc_entries_first(es);
        let eb = entry_bytes(es[0]);
        let rest = enc_entries(es.drop_first());
        assert(eb.len() == 16 + enc_pairs(es[0].1).len());
        lemma_sub_window(b, off, all, 0, 4);
        assert(all.subrange(0, 4) =~= enc_u32(sym_code(es[0].0.fst)));
        lemma_dec_u32_window(b, off, sym_code(es[0].0.fst));
        lemma_sym_code_round(es[0].0.fst);
        lemma_sub_window(b, off, all, 4, 8);
        assert(all.subrange(4, 8) =~= enc_u32(sym_code(es[0].0.snd)));
        lemma_dec_u32_window(b, off + 4, sym_code(es[0].0.snd));
        lemma_sym_code_round(es[0].0.snd);
        lemma_sub_window(b, off, all, 8, 16);
        assert(all.subrange(8, 16) =~= enc_u64(es[0].1.len() as u64));
        lemma_dec_u64_window(b, off + 8, es[0].1.len() as u64);
        assert(dec_u64(b, off + 8) as nat == es[0].1.len());
        let pairs_len = enc_pairs(es[0].1).len() as int;
        lemma_sub_window(b, off, all, 16, 16 + pairs_len);
        assert(all.subrange(16, 16 + pairs_len) =~= enc_pairs(es[0].1));
        lemma_parse_pairs_round(b, off + 16, es[0].1);
        lemma_sub_window(b, off, all, eb.len() as int, all.len() as int);
        assert(all.subrange(eb.len() as int, all.len() as int) =~= rest);
        lemma_parse_entries_round(b, off + eb.len(), es.drop_first());
        assert(es[0] == (Context { fst: es[0].0.fst, snd: es[0].0.snd }, es[0].1));
        assert(seq![(Context { fst: es[0].0.fst, snd: es[0].0.snd }, es[0].1)] + es.drop_first()
            =~= es);
    }
}

proof fn lemma_parse_words_round(b: Seq<u8>, off: int, ws: Seq<Seq<char>>)
    requires
        0 <= off,
        off + enc_words(ws).len() <= b.len(),
        b.subrange(off, off + enc_words(ws).len()) == enc_words(ws),
        forall|i: int| 0 <= i < ws.len() ==> (#[trigger] ws[i]).len() <= u64::MAX,
    ensures
        parse_words(b, off, ws.len()) == Some((ws, off + enc_words(ws).len())),
    decreases ws.len(),
{
    let all = enc_words(ws);
    if ws.len() == 0 {
        assert(all.len() == 0);
    } else {
        lemma_enc_words_first(ws);
        let wb = word_bytes(ws[0]);
        let rest = enc_words(ws.drop_first());
        assert(wb.len() == 8 + enc_chars(ws[0]).len());
        lemma_sub_window(b, off, all, 0, 8);
        assert(all.subrange(0, 8) =~= enc_u64(ws[0].len() as u64));
        lemma_dec_u64_window(b, off, ws[0].len() as u64);
        assert(dec_u64(b, off) as nat == ws[0].len());
        let chars_len = enc_chars(ws[0]).len() as int;
        lemma_sub_window(b, off, all, 8, 8 + chars_len);
        assert(all.subrange(8, 8 + chars_len) =~= enc_chars(ws[0]));
        lemma_parse_chars_round(b, off + 8, ws[0]);
        lemma_sub_window(b, off, all, wb.len() as int, all.len() as int);
        assert(all.subrange(wb.len() as int, all.len() as int) =~= rest);
        lemma_parse_words_round(b, off + wb.len(), ws.drop_first());
        assert(seq![ws[0]] + ws.drop_first() =~= ws);
    }
}

/// The round trip: the encoding of any chain listing whose counts fit the
/// format's length fields parses back to exactly that listing. Together
/// with the contracts of `encode` and `decode`, decoding the bytes written
/// for a well-formed chain rebuilds its entries and words unchanged.
#[verifier::rlimit(60)]
pub proof fn lemma_round_trip(es: Seq<(Context, Seq<(Symbol, u32)>)>, ws: Seq<Seq<char>>)
    requires
        sizes_bounded(es, ws),
    ensures
        parse_all(encoded(es, ws)) == Some((es, ws)),
{
    let b = encoded(es, ws);
    assert(b.subrange(0, b.len() as int) =~= b);
    assert(b.len() >= 12);
    assert(b.subrange(0, 4) =~= magic());
    let e_end = 12 + enc_entries(es).len() as int;
    lemma_sub_window(b, 0, b, 4, 12);
    assert(b.subrange(4, 12) =~= enc_u64(es.len() as u64));
    lemma_dec_u64_window(b, 4, es.len() as u64);
    assert(dec_u64(b, 4) as nat == es.len());
    lemma_sub_window(b, 0, b, 12, e_end);
    assert(b.subrange(12, e_end) =~= enc_entries(es));
    lemma_parse_entries_round(b, 12, es);
    lemma_sub_window(b, 0, b, e_end, e_end + 8);
    assert(b.subrange(e_end, e_end + 8) =~= enc_u64(ws.len() as u64));
    lemma_dec_u64_window(b, e_end, ws.len() as u64);
    assert(dec_u64(b, e_end) as nat == ws.len());
    let w_end = e_end + 8 + enc_words(ws).len() as int;
    lemma_sub_window(b, 0, b, e_end + 8, w_end);
    assert(b.subrange(e_end + 8, w_end) =~= enc_words(ws));
    lemma_parse_words_round(b, e_end + 8, ws);
    assert(w_end == b.len());
}


/// Append the four little-endian bytes of a 32-bit value.
fn push_u32(out: &mut Vec<u8>, v: u32)
    ensures
        final(out)@ == old(out)@ + enc_u32(v),
{
    out.push((v & 0xff) as u8);
    out.push(((v >> 8) & 0xff) as u8);
    out.push(((v >> 16) & 0xff) as u8);
    out.push(((v >> 24) & 0xff) as u8);
    proof {
        assert(out@ =~= old(out)@ + enc_u32(v));
    }
}

/// Append the eight little-endian bytes of a 64-bit value.
fn push_u64(out: &mut Vec<u8>, v: u64)
    ensures
        final(out)@ == old(out)@ + enc_u64(v),
{
    out.push((v & 0xff) as u8);
    out.push(((v >> 8) & 0xff) as u8);
    out.push(((v >> 16) & 0xff) as u8);
    out.push(((v >> 24) & 0xff) as u8);
    out.push(((v >> 32) & 0xff) as u8);
    out.push(((v >> 40) & 0xff) as u8);
    out.push(((v >> 48) & 0xff) as u8);
    out.push(((v >> 56) & 0xff) as u8);
    proof {
        assert(out@ =~= old(out)@ + enc_u64(v));
    }
}

/// The 32-bit code of a symbol, computed executably.
fn sym_code_exec(s: &Symbol) -> (v: u32)
    ensures
        v == sym_code(*s),
{
    match s {
        Symbol::Start => 0x110000,
        Symbol::End => 0x110001,
        Symbol::Letter(c) => *c as u32,
    }
}

/// Lay a compiled chain out as bytes. The layout is the one `parse_all`
/// reads: magic bytes, the transition entries, the known words.
pub fn encode(chain: &CharkovChain) -> (r: Vec<u8>)
    ensures
        r@ == encoded(chain.entries(), chain.word_seq()),
{
    proof {
        crate::model::lemma_chain_repr(chain);
    }
    let ghost es = chain.entries();
    let ghost ws = chain.word_seq();
    let mut out: Vec<u8> = Vec::new();
    out.push(0x46);
    out.push(0x43);
    out.push(0x4d);
    out.push(0x31);
    proof {
        assert(out@ =~= magic());
    }
    let ne = chain.chain.len();
    push_u64(&mut out, ne as u64);
    let mut i: usize = 0;
    while i < ne
        invariant
            ne == chain.chain@.len(),
            es == chain.entries(),
            es == Seq::new(chain.chain@.len(), |l: int| (chain.chain@[l].0, chain.chain@[l].1.pairs@)),
            i <= ne,
            out@ == magic() + enc_u64(es.len() as u64) + enc_entries(es.take(i as int)),
        decreases ne - i,
    {
        let ghost out_entry_start = out@;
        let k = chain.chain[i].0;
        push_u32(&mut out, sym_code_exec(&k.fst));
        push_u32(&mut out, sym_code_exec(&k.snd));
        let m = chain.chain[i].1.pairs.len();
        push_u64(&mut out, m as u64);
        let ghost ps = chain.chain@[i as int].1.pairs@;
        let mut j: usize = 0;
        while j < m
            invariant
                ne == chain.chain@.len(),
                i < ne,
                ps == chain.chain@[i as int].1.pairs@,
                m == ps.len(),
                j <= m,
                out@ == out_entry_start + enc_u32(sym_code(chain.chain@[i as int].0.fst))
                    + enc_u32(sym_code(chain.chain@[i as int].0.snd)) + enc_u64(m as u64)
                    + enc_pairs(ps.take(j as int)),
            decreases m - j,
        {
            let p = chain.chain[i].1.pairs[j];
            push_u32(&mut out, sym_code_exec(&p.0));
            push_u32(&mut out, p.1);
            j += 1;
            proof {
                assert(ps.take(j as int).drop_last() =~= ps.take(j - 1));
                assert(out@ =~= out_entry_start + enc_u32(sym_code(chain.chain@[i as int].0.fst))
                    + enc_u32(sym_code(chain.chain@[i as int].0.snd)) + enc_u64(m as u64)
                    + enc_pairs(ps.take(j as int)));
            }
        }
        i += 1;
        proof {
            assert(ps.take(m as int) =~= ps);
            assert(es.take(i as int).drop_last() =~= es.take(i - 1));
            assert(es[i - 1] == (chain.chain@[i - 1].0, chain.chain@[i - 1].1.pairs@));
            assert(out@ =~= magic() + enc_u64(es.len() as u64) + enc_entries(es.take(i as int)));
        }
    }
    proof {
        assert(es.take(ne as int) =~= es);
    }
    let ghost out_words_start = out@;
    let nw = chain.words.len();
    push_u64(&mut out, nw as u64);
    let mut wi: usize = 0;
    while wi < nw
        invariant
            nw == chain.words@.len(),
            ws == Seq::new(chain.words@.len(), |l: int| chain.words@[l]@),
            wi <= nw,
            out@ == out_words_start + enc_u64(ws.len() as u64) + enc_words(ws.take(wi as int)),
        decreases nw - wi,
    {
        let ghost out_word_start = out@;
        let l = chain.words[wi].as_str().unicode_len();
        push_u64(&mut out, l as u64);
        let ghost w = chain.words@[wi as int]@;
        let mut cj: usize = 0;
        while cj < l
            invariant
                nw == chain.words@.len(),
                wi < nw,
                w == chain.words@[wi as int]@,
                l == w.len(),
                cj <= l,
                out@ == out_word_start + enc_u64(l as u64) + enc_chars(w.take(cj as int)),
            decreases l - cj,
        {
            let c = chain.words[wi].as_str().get_char(cj);
            push_u32(&mut out, c as u32);
            cj += 1;
            proof {
                assert(w.take(cj as int).drop_last() =~= w.take(cj - 1));
                assert(out@ =~= out_word_start + enc_u64(l as u64) + enc_chars(w.take(cj as int)));
            }
        }
        wi += 1;
        proof {
            assert(w.take(l as int) =~= w);
            assert(ws.take(wi as int).drop_last() =~= ws.take(wi - 1));
            assert(ws[wi - 1] == chain.words@[wi - 1]@);
            assert(out@ =~= out_words_start + enc_u64(ws.len() as u64) + enc_words(
                ws.take(wi as int),
            ));
        }
    }
    proof {
        assert(ws.take(nw as int) =~= ws);
        assert(out@ =~= encoded(es, ws));
    }
    out
}


/// Read the 32-bit value at `off`.
fn read_u32(bytes: &Vec<u8>, off: usize) -> (v: u32)
    requires
        off + 4 <= bytes@.len(),
    ensures
        v == dec_u32(bytes@, off as int),
{
    let _len = bytes.len();
    (bytes[off] as u32) | ((bytes[off + 1] as u32) << 8u32) | ((bytes[off + 2] as u32) << 16u32)
        | ((bytes[off + 3] as u32) << 24u32)
}

/// Read the 64-bit value at `off`.
fn read_u64(bytes: &Vec<u8>, off: usize) -> (v: u64)
    requires
        off + 8 <= bytes@.len(),
    ensures
        v == dec_u64(bytes@, off as int),
{
    let _len = bytes.len();
    (bytes[off] as u64) | ((bytes[off + 1] as u64) << 8u64) | ((bytes[off + 2] as u64) << 16u64)
        | ((bytes[off + 3] as u64) << 24u64) | ((bytes[off + 4] as u64) << 32u64) | ((bytes[off
        + 5] as u64) << 40u64) | ((bytes[off + 6] as u64) << 48u64) | ((bytes[off + 7] as u64)
        << 56u64)
}

/// The symbol a 32-bit code denotes, if any, computed executably.
fn sym_from_code(v: u32) -> (r: Option<Symbol>)
    ensures
        r == parse_sym(v),
{
    if v == 0x110000 {
        Some(Symbol::Start)
    } else if v == 0x110001 {
        Some(Symbol::End)
    } else {
        match crate::trusted::char_from_u32(v) {
            Some(c) => {
                proof {
                    char_u32_cast(c, v);
                }
                Some(Symbol::Letter(c))
            },
            None => None,
        }
    }
}

/// Run the pair parse at `off`, executably.
fn parse_pairs_exec(bytes: &Vec<u8>, off: usize, n: u64) -> (r: Option<(Vec<(Symbol, u32)>, usize)>)
    requires
        off <= bytes@.len(),
    ensures
        r matches Some(p) ==> {
            &&& parse_pairs(bytes@, off as int, n as nat) == Some((p.0@, p.1 as int))
            &&& off <= p.1 <= bytes@.len()
        },
        r is None ==> parse_pairs(bytes@, off as int, n as nat) is None,
{
    let nb = bytes.len();
    let mut ps: Vec<(Symbol, u32)> = Vec::new();
    let mut cur: usize = off;
    let mut done: u64 = 0;
    while done < n
        invariant
            off <= cur <= nb,
            nb == bytes@.len(),
            done <= n,
            ps@.len() == done,
            ({
                match parse_pairs(bytes@, cur as int, (n - done) as nat) {
                    Some(q) => parse_pairs(bytes@, off as int, n as nat) == Some(
                        (ps@ + q.0, q.1),
                    ),
                    None => parse_pairs(bytes@, off as int, n as nat) is None,
                }
            }),
        decreases n - done,
    {
        if nb - cur < 8 {
            return None;
        }
        let sc = read_u32(bytes, cur);
        let sym = match sym_from_code(sc) {
            Some(x) => x,
            None => {
                return None;
            },
        };
        let wt = read_u32(bytes, cur + 4);
        let ghost ps_old = ps@;
        ps.push((sym, wt));
        cur = cur + 8;
        done = done + 1;
        proof {
            let rem: nat = (n - done) as nat;
            match parse_pairs(bytes@, cur as int, rem) {
                Some(q) => {
                    assert(ps_old + (seq![(sym, wt)] + q.0) =~= ps@ + q.0);
                },
                None => {},
            }
        }
    }
    Some((ps, cur))
}

/// Run the entry parse at `off`, executably; entries come back as plain
/// context/pairs records.
fn parse_entries_exec(bytes: &Vec<u8>, off: usize, n: u64) -> (r: Option<
    (Vec<(Context, Vec<(Symbol, u32)>)>, usize),
>)
    requires
        off <= bytes@.len(),
    ensures
        r matches Some(p) ==> {
            &&& parse_entries(bytes@, off as int, n as nat) == Some(
                (Seq::new(p.0@.len(), |l: int| (p.0@[l].0, p.0@[l].1@)), p.1 as int),
            )
            &&& off <= p.1 <= bytes@.len()
        },
        r is None ==> parse_entries(bytes@, off as int, n as nat) is None,
{
    let nb = bytes.len();
    let mut es: Vec<(Context, Vec<(Symbol, u32)>)> = Vec::new();
    let mut cur: usize = off;
    let mut done: u64 = 0;
    while done < n
        invariant
            off <= cur <= nb,
            nb == bytes@.len(),
            done <= n,
            es@.len() == done,
            ({
                match parse_entries(bytes@, cur as int, (n - done) as nat) {
                    Some(q) => parse_entries(bytes@, off as int, n as nat) == Some(
                        (Seq::new(es@.len(), |l: int| (es@[l].0, es@[l].1@)) + q.0, q.1),
                    ),
                    None => parse_entries(bytes@, off as int, n as nat) is None,
                }
            }),
        decreases n - done,
    {
        if nb - cur < 16 {
            return None;
        }
        let fc = read_u32(bytes, cur);
        let scd = read_u32(bytes, cur + 4);
        let f_sym = match sym_from_code(fc) {
            Some(x) => x,
            None => {
                return None;
            },
        };
        let s_sym = match sym_from_code(scd) {
            Some(x) => x,
            None => {
                return None;
            },
        };
        let np = read_u64(bytes, cur + 8);
        let pr = match parse_pairs_exec(bytes, cur + 16, np) {
            Some(p) => p,
            None => {
                return None;
            },
        };
        let k = Context { fst: f_sym, snd: s_sym };
        let ghost es_old = es@;
        let ghost pr_seq = pr.0@;
        es.push((k, pr.0));
        cur = pr.1;
        done = done + 1;
        proof {
            let rem: nat = (n - done) as nat;
            let built = Seq::new(es@.len(), |l: int| (es@[l].0, es@[l].1@));
            let built_old = Seq::new(es_old.len(), |l: int| (es_old[l].0, es_old[l].1@));
            match parse_entries(bytes@, cur as int, rem) {
                Some(q) => {
                    assert(built_old + (seq![(k, pr_seq)] + q.0) =~= built + q.0);
                },
                None => {},
            }
        }
    }
    Some((es, cur))
}

/// Run the character parse at `off`, executably, building the word.
fn parse_chars_exec(bytes: &Vec<u8>, off: usize, n: u64) -> (r: Option<(String, usize)>)
    requires
        off <= bytes@.len(),
    ensures
        r matches Some(p) ==> {
            &&& parse_chars(bytes@, off as int, n as nat) == Some((p.0@, p.1 as int))
            &&& off <= p.1 <= bytes@.len()
        },
        r is None ==> parse_chars(bytes@, off as int, n as nat) is None,
{
    let nb = bytes.len();
    let mut w = String::new();
    let mut cur: usize = off;
    let mut done: u64 = 0;
    while done < n
        invariant
            off <= cur <= nb,
            nb == bytes@.len(),
            done <= n,
            w@.len() == done,
            ({
                match parse_chars(bytes@, cur as int, (n - done) as nat) {
                    Some(q) => parse_chars(bytes@, off as int, n as nat) == Some((w@ + q.0, q.1)),
                    None => parse_chars(bytes@, off as int, n as nat) is None,
                }
            }),
        decreases n - done,
    {
        if nb - cur < 4 {
            return None;
        }
        let cv = read_u32(bytes, cur);
        let c = match crate::trusted::char_from_u32(cv) {
            Some(c) => c,
            None => {
                return None;
            },
        };
        proof {
            char_u32_cast(c, cv);
        }
        let ghost w_old = w@;
        crate::trusted::push_char(&mut w, c);
        cur = cur + 4;
        done = done + 1;
        proof {
            let rem: nat = (n - done) as nat;
            match parse_chars(bytes@, cur as int, rem) {
                Some(q) => {
                    assert(w_old + (seq![c] + q.0) =~= w@ + q.0);
                },
                None => {},
            }
        }
    }
    Some((w, cur))
}

/// Run the word parse at `off`, executably.
fn parse_words_exec(bytes: &Vec<u8>, off: usize, n: u64) -> (r: Option<(Vec<String>, usize)>)
    requires
        off <= bytes@.len(),
    ensures
        r matches Some(p) ==> {
            &&& parse_words(bytes@, off as int, n as nat) == Some(
                (Seq::new(p.0@.len(), |l: int| p.0@[l]@), p.1 as int),
            )
            &&& off <= p.1 <= bytes@.len()
        },
        r is None ==> parse_words(bytes@, off as int, n as nat) is None,
{
    let nb = bytes.len();
    let mut ws: Vec<String> = Vec::new();
    let mut cur: usize = off;
    let mut done: u64 = 0;
    while done < n
        invariant
            off <= cur <= nb,
            nb == bytes@.len(),
            done <= n,
            ws@.len() == done,
            ({
                match parse_words(bytes@, cur as int, (n - done) as nat) {
                    Some(q) => parse_words(bytes@, off as int, n as nat) == Some(
                        (Seq::new(ws@.len(), |l: int| ws@[l]@) + q.0, q.1),
                    ),
                    None => parse_words(bytes@, off as int, n as nat) is None,
                }
            }),
        decreases n - done,
    {
        if nb - cur < 8 {
            return None;
        }
        let nc = read_u64(bytes, cur);
        let cr = match parse_chars_exec(bytes, cur + 8, nc) {
            Some(p) => p,
            None => {
                return None;
            },
        };
        let ghost ws_old = ws@;
        let ghost cr_seq = cr.0@;
        ws.push(cr.0);
        cur = cr.1;
        done = done + 1;
        proof {
            let rem: nat = (n - done) as nat;
            let built = Seq::new(ws@.len(), |l: int| ws@[l]@);
            let built_old = Seq::new(ws_old.len(), |l: int| ws_old[l]@);
            match parse_words(bytes@, cur as int, rem) {
                Some(q) => {
                    assert(built_old + (seq![cr_seq] + q.0) =~= built + q.0);
                },
                None => {},
            }
        }
    }
    Some((ws, cur))
}


/// Whether a context is one training could observe, computed executably.
fn ctx_ok(k: &Context) -> (r: bool)
    ensures
        r == ctx_wf(*k),
{
    let fst_end = matches!(k.fst, Symbol::End);
    let snd_end = matches!(k.snd, Symbol::End);
    let snd_start = matches!(k.snd, Symbol::Start);
    let fst_start = matches!(k.fst, Symbol::Start);
    !fst_end && !snd_end && (!snd_start || fst_start)
}

/// Whether one parsed entry is acceptable: well formed and within the
/// sampler builder's arithmetic.
fn entry_ok(k: &Context, ps: &Vec<(Symbol, u32)>) -> (r: bool)
    ensures
        r == (entry_wf(*k, ps@) && entry_fits(ps@)),
{
    if !ctx_ok(k) {
        return false;
    }
    let m = ps.len();
    if m == 0 {
        return false;
    }
    let mut j: usize = 0;
    while j < m
        invariant
            m == ps@.len(),
            j <= m,
            forall|l: int| 0 <= l < j ==> (#[trigger] ps@[l]).1 >= 1 && next_sym_ok(ps@[l].0),
        decreases m - j,
    {
        if ps[j].1 < 1 || matches!(ps[j].0, Symbol::Start) {
            return false;
        }
        j += 1;
    }
    let mut a: usize = 0;
    while a < m
        invariant
            m == ps@.len(),
            a <= m,
            forall|x: int, y: int| 0 <= x < y < m && x < a ==> (#[trigger] ps@[x]).0 != (
            #[trigger] ps@[y]).0,
        decreases m - a,
    {
        let mut b: usize = a + 1;
        while b < m
            invariant
                m == ps@.len(),
                a < m,
                a + 1 <= b <= m,
                forall|y: int| a < y < b ==> (#[trigger] ps@[y]).0 != ps@[a as int].0,
            decreases m - b,
        {
            if ps[a].0 == ps[b].0 {
                return false;
            }
            b += 1;
        }
        a += 1;
    }
    crate::model::entry_within_limit(ps)
}

/// Whether a parsed listing is a well-formed chain the sampler builder
/// can host: distinct contexts, acceptable entries, distinct words.
fn listing_check(es: &Vec<(Context, Vec<(Symbol, u32)>)>, words: &Vec<String>) -> (r: bool)
    ensures
        r == {
            let ev = Seq::new(es@.len(), |l: int| (es@[l].0, es@[l].1@));
            let wv = Seq::new(words@.len(), |l: int| words@[l]@);
            listing_wf(ev, wv) && (forall|i: int|
                0 <= i < ev.len() ==> entry_fits((#[trigger] ev[i]).1))
        },
{
    let ghost ev = Seq::new(es@.len(), |l: int| (es@[l].0, es@[l].1@));
    let ghost wv = Seq::new(words@.len(), |l: int| words@[l]@);
    let ne = es.len();
    let mut i: usize = 0;
    while i < ne
        invariant
            ne == es@.len(),
            ev == Seq::new(es@.len(), |l: int| (es@[l].0, es@[l].1@)),
            i <= ne,
            forall|l: int|
                0 <= l < i ==> entry_wf((#[trigger] ev[l]).0, ev[l].1) && entry_fits(ev[l].1),
        decreases ne - i,
    {
        if !entry_ok(&es[i].0, &es[i].1) {
            proof {
                assert(ev[i as int] == (es@[i as int].0, es@[i as int].1@));
                if listing_wf(ev, wv) {
                    assert(entry_wf(ev[i as int].0, ev[i as int].1));
                }
                if forall|l: int| 0 <= l < ev.len() ==> entry_fits((#[trigger] ev[l]).1) {
                    assert(entry_fits(ev[i as int].1));
                }
            }
            return false;
        }
        i += 1;
    }
    let mut a: usize = 0;
    while a < ne
        invariant
            ne == es@.len(),
            ev == Seq::new(es@.len(), |l: int| (es@[l].0, es@[l].1@)),
            a <= ne,
            forall|x: int, y: int| 0 <= x < y < ne && x < a ==> (#[trigger] ev[x]).0 != (
            #[trigger] ev[y]).0,
        decreases ne - a,
    {
        let mut b: usize = a + 1;
        while b < ne
            invariant
                ne == es@.len(),
                ev == Seq::new(es@.len(), |l: int| (es@[l].0, es@[l].1@)),
                a < ne,
                a + 1 <= b <= ne,
                forall|y: int| a < y < b ==> (#[trigger] ev[y]).0 != ev[a as int].0,
            decreases ne - b,
        {
            if es[a].0 == es[b].0 {
                proof {
                    assert((ev[a as int]).0 == (ev[b as int]).0);
                    if listing_wf(ev, wv) {
                        assert((ev[a as int]).0 != (ev[b as int]).0);
                    }
                }
                return false;
            }
            b += 1;
        }
        a += 1;
    }
    let nw = words.len();
    let mut wa: usize = 0;
    while wa < nw
        invariant
            nw == words@.len(),
            wv == Seq::new(words@.len(), |l: int| words@[l]@),
            wa <= nw,
            forall|x: int, y: int| 0 <= x < y < nw && x < wa ==> (#[trigger] wv[x]) != (
            #[trigger] wv[y]),
        decreases nw - wa,
    {
        let mut wb: usize = wa + 1;
        while wb < nw
            invariant
                nw == words@.len(),
                wv == Seq::new(words@.len(), |l: int| words@[l]@),
                wa < nw,
                wa + 1 <= wb <= nw,
                forall|y: int| wa < y < wb ==> (#[trigger] wv[y]) != wv[wa as int],
            decreases nw - wb,
        {
            if words[wa] == words[wb] {
                proof {
                    assert(wv[wa as int] == wv[wb as int]);
                    if listing_wf(ev, wv) {
                        assert(wv[wa as int] != wv[wb as int]);
                    }
                }
                return false;
            }
            wb += 1;
        }
        wa += 1;
    }
    true
}

/// Decoding failed: the bytes are not the encoding of a well-formed chain.
#[derive(Clone, Copy, Debug, PartialEq, Eq, Structural)]
pub enum DecodeError {
    Malformed,
}

/// Read a chain back from bytes. Succeeds exactly on byte sequences that
/// parse as a whole and denote a well-formed chain; anything corrupt or
/// truncated is rejected, and nothing partial is ever returned.
pub fn decode(bytes: &Vec<u8>) -> (r: Result<CharkovChain, DecodeError>)
    ensures
        r is Ok <==> decodable(bytes@),
        r matches Ok(c) ==> {
            &&& c.wf()
            &&& parse_all(bytes@) matches Some(m) && c.entries() == m.0 && c.word_seq() == m.1
        },
{
    let nb = bytes.len();
    if nb < 12 {
        return Err(DecodeError::Malformed);
    }
    if !(bytes[0] == 0x46 && bytes[1] == 0x43 && bytes[2] == 0x4d && bytes[3] == 0x31) {
        proof {
            assert(bytes@.subrange(0, 4) != magic()) by {
                if bytes@.subrange(0, 4) == magic() {
                    assert(bytes@.subrange(0, 4)[0] == bytes@[0]);
                    assert(bytes@.subrange(0, 4)[1] == bytes@[1]);
                    assert(bytes@.subrange(0, 4)[2] == bytes@[2]);
                    assert(bytes@.subrange(0, 4)[3] == bytes@[3]);
                }
            }
        }
        return Err(DecodeError::Malformed);
    }
    proof {
        assert(bytes@.subrange(0, 4) =~= magic());
    }
    let ne = read_u64(bytes, 4);
    let er = match parse_entries_exec(bytes, 12, ne) {
        Some(p) => p,
        None => {
            return Err(DecodeError::Malformed);
        },
    };
    let (es_vec, cur) = er;
    if nb - cur < 8 {
        return Err(DecodeError::Malformed);
    }
    let nw = read_u64(bytes, cur);
    let wr = match parse_words_exec(bytes, cur + 8, nw) {
        Some(p) => p,
        None => {
            return Err(DecodeError::Malformed);
        },
    };
    let (words_vec, wend) = wr;
    if wend != nb {
        return Err(DecodeError::Malformed);
    }
    let ghost ev = Seq::new(es_vec@.len(), |l: int| (es_vec@[l].0, es_vec@[l].1@));
    let ghost wv = Seq::new(words_vec@.len(), |l: int| words_vec@[l]@);
    proof {
        assert(parse_all(bytes@) == Some((ev, wv)));
    }
    if !listing_check(&es_vec, &words_vec) {
        return Err(DecodeError::Malformed);
    }
    let counter = CharCounter { counts: es_vec, words: words_vec };
    proof {
        crate::model::lemma_counter_repr(&counter);
        assert(counter.entries() == ev);
        assert(counter.word_seq() == wv);
        assert(counter.wf());
        assert(counter.fits_sampler());
    }
    let chain = CharkovChain::compile(counter);
    Ok(chain)
}

} // verus!
