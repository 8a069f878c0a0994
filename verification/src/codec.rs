//! The binary encoding of a model and its archived form: a
//! length-prefixed, little-endian record format written field by field,
//! stored as the single deflate-compressed entry of an archive
//! container.

use crate::error::Error;
use crate::memory::mem_entries_view;
use crate::memory::table_words_nonempty;
use crate::memory::Memory;
use crate::memory::ModelView;
use crate::words::distinct_keys;
use crate::words::entries_view;
use crate::words::lemma_seq_sum_take_le;
use crate::words::pair_eq;
use crate::words::part_eq;
use crate::words::seq_sum;
use crate::words::table_wf;
use crate::words::NextPartList;
use crate::words::PairView;
use crate::words::PartView;
use crate::words::SentencePart;
use crate::words::SentencePartPair;
use vstd::prelude::*;
use vstd::slice::slice_index_get;
use vstd::slice::slice_subrange;
use vstd::string::StrSliceExecFns;

verus! {

/// Eight little-endian bytes of a 64-bit value.
#[verifier::opaque]
pub open spec fn enc_u64(v: u64) -> Seq<u8> {
    seq![
        (v % 0x100) as u8,
        ((v / 0x100) % 0x100) as u8,
        ((v / 0x1_0000) % 0x100) as u8,
        ((v / 0x100_0000) % 0x100) as u8,
        ((v / 0x1_0000_0000) % 0x100) as u8,
        ((v / 0x100_0000_0000) % 0x100) as u8,
        ((v / 0x1_0000_0000_0000) % 0x100) as u8,
        ((v / 0x100_0000_0000_0000) % 0x100) as u8,
    ]
}

/// Four little-endian bytes of a 32-bit value.
#[verifier::opaque]
pub open spec fn enc_u32(v: u32) -> Seq<u8> {
    seq![
        (v % 0x100) as u8,
        ((v / 0x100) % 0x100) as u8,
        ((v / 0x1_0000) % 0x100) as u8,
        ((v / 0x100_0000) % 0x100) as u8,
    ]
}

/// The characters of a word, each as its 32-bit scalar value.
pub open spec fn enc_chars(s: Seq<char>) -> Seq<u8>
    decreases s.len(),
{
    if s.len() == 0 {
        Seq::empty()
    } else {
        enc_u32(s[0] as u32) + enc_chars(s.drop_first())
    }
}

/// One sentence part: a one-byte tag, and for a word its length and its
/// characters.
pub open spec fn enc_part(t: PartView) -> Seq<u8> {
    match t {
        PartView::Start => seq![0u8],
        PartView::End => seq![1u8],
        PartView::Word(w) => seq![2u8] + enc_u64(w.len() as u64) + enc_chars(w),
    }
}

/// The entries of one table: each part with its count.
pub open spec fn enc_entries(s: Seq<(PartView, nat)>) -> Seq<u8>
    decreases s.len(),
{
    if s.len() == 0 {
        Seq::empty()
    } else {
        enc_part(s[0].0) + enc_u64(s[0].1 as u64) + enc_entries(s.drop_first())
    }
}

/// One table: its entry count, then its entries.
pub open spec fn enc_table(s: Seq<(PartView, nat)>) -> Seq<u8> {
    enc_u64(s.len() as u64) + enc_entries(s)
}

/// The contexts of a model, each with its table.
pub open spec fn enc_ctxs(m: ModelView) -> Seq<u8>
    decreases m.len(),
{
    if m.len() == 0 {
        Seq::empty()
    } else {
        enc_part(m[0].0.prev) + enc_part(m[0].0.prev_prev) + enc_table(m[0].1) + enc_ctxs(
            m.drop_first(),
        )
    }
}

/// The whole model: its context count, then its contexts.
pub open spec fn spec_encode(m: ModelView) -> Seq<u8> {
    enc_u64(m.len() as u64) + enc_ctxs(m)
}

/// What decoding demands of every table it accepts.
pub open spec fn table_ok(s: Seq<(PartView, nat)>) -> bool {
    &&& s.len() >= 1
    &&& table_wf(s)
    &&& table_words_nonempty(s)
}

/// What decoding demands of every model it accepts; also what every
/// model reachable through the library satisfies.
pub open spec fn model_ok(m: ModelView) -> bool {
    &&& distinct_keys(m)
    &&& (forall|i: int| 0 <= i < m.len() ==> table_ok((#[trigger] m[i]).1))
    &&& m.len() <= usize::MAX
}

/// A 64-bit value read back from eight little-endian bytes.
#[verifier::opaque]
pub open spec fn dec_u64(b: Seq<u8>) -> Option<(u64, Seq<u8>)> {
    if b.len() < 8 {
        None
    } else {
        Some(
            (
                ((b[0] as u64) + (b[1] as u64) * 0x100 + (b[2] as u64) * 0x1_0000 + (b[3] as u64)
                    * 0x100_0000 + (b[4] as u64) * 0x1_0000_0000 + (b[5] as u64) * 0x100_0000_0000
                    + (b[6] as u64) * 0x1_0000_0000_0000 + (b[7] as u64) * 0x100_0000_0000_0000) as u64,
                b.skip(8),
            ),
        )
    }
}

/// A 32-bit value read back from four little-endian bytes.
#[verifier::opaque]
pub open spec fn dec_u32(b: Seq<u8>) -> Option<(u32, Seq<u8>)> {
    if b.len() < 4 {
        None
    } else {
        Some(
            (
                ((b[0] as u32) + (b[1] as u32) * 0x100 + (b[2] as u32) * 0x1_0000 + (b[3] as u32)
                    * 0x100_0000) as u32,
                b.skip(4),
            ),
        )
    }
}

/// `k` characters read back, each a valid Unicode scalar value.
pub open spec fn dec_chars(b: Seq<u8>, k: nat) -> Option<(Seq<char>, Seq<u8>)>
    decreases k,
{
    if k == 0 {
        Some((Seq::empty(), b))
    } else {
        match dec_u32(b) {
            None => None,
            Some((v, r)) => if vstd::utf8::is_scalar(v) {
                match dec_chars(r, (k - 1) as nat) {
                    None => None,
                    Some((cs, r2)) => Some((seq![v as char] + cs, r2)),
                }
            } else {
                None
            },
        }
    }
}

/// One sentence part read back; a word must carry at least one
/// character.
pub open spec fn dec_part(b: Seq<u8>) -> Option<(PartView, Seq<u8>)> {
    if b.len() < 1 {
        None
    } else {
        let tag = b[0];
        let r = b.skip(1);
        if tag == 0 {
            Some((PartView::Start, r))
        } else if tag == 1 {
            Some((PartView::End, r))
        } else if tag == 2 {
            match dec_u64(r) {
                None => None,
                Some((k, r2)) => if k < 1 {
                    None
                } else {
                    match dec_chars(r2, k as nat) {
                        None => None,
                        Some((cs, r3)) => Some((PartView::Word(cs), r3)),
                    }
                },
            }
        } else {
            None
        }
    }
}

/// `j` table entries read back; every count is positive and fits the
/// machine.
pub open spec fn dec_entries(b: Seq<u8>, j: nat) -> Option<(Seq<(PartView, nat)>, Seq<u8>)>
    decreases j,
{
    if j == 0 {
        Some((Seq::empty(), b))
    } else {
        match dec_part(b) {
            None => None,
            Some((t, r)) => match dec_u64(r) {
                None => None,
                Some((cnt, r2)) => if cnt < 1 || cnt as nat > usize::MAX as nat {
                    None
                } else {
                    match dec_entries(r2, (j - 1) as nat) {
                        None => None,
                        Some((es, r3)) => Some((seq![(t, cnt as nat)] + es, r3)),
                    }
                },
            },
        }
    }
}

/// One table read back, and accepted only when it is well-formed.
pub open spec fn dec_table(b: Seq<u8>) -> Option<(Seq<(PartView, nat)>, Seq<u8>)> {
    match dec_u64(b) {
        None => None,
        Some((j, r)) => if j < 1 || j as nat > usize::MAX as nat {
            None
        } else {
            match dec_entries(r, j as nat) {
                None => None,
                Some((es, r2)) => if table_ok(es) {
                    Some((es, r2))
                } else {
                    None
                },
            }
        },
    }
}

/// `n` contexts read back, each with its table.
pub open spec fn dec_ctxs(b: Seq<u8>, n: nat) -> Option<(ModelView, Seq<u8>)>
    decreases n,
{
    if n == 0 {
        Some((Seq::empty(), b))
    } else {
        match dec_part(b) {
            None => None,
            Some((prev, r)) => match dec_part(r) {
                None => None,
                Some((prev_prev, r2)) => match dec_table(r2) {
                    None => None,
                    Some((es, r3)) => match dec_ctxs(r3, (n - 1) as nat) {
                        None => None,
                        Some((ms, r4)) => Some(
                            (seq![(PairView { prev, prev_prev }, es)] + ms, r4),
                        ),
                    },
                },
            },
        }
    }
}

/// The whole model read back: every byte consumed, contexts distinct.
pub open spec fn spec_decode(b: Seq<u8>) -> Option<ModelView> {
    match dec_u64(b) {
        None => None,
        Some((n, r)) => if n as nat > usize::MAX as nat {
            None
        } else {
            match dec_ctxs(r, n as nat) {
                None => None,
                Some((m, r2)) => if r2.len() == 0 && distinct_keys(m) {
                    Some(m)
                } else {
                    None
                },
            }
        },
    }
}

/// The eight little-endian bytes of a value read back as that value.
proof fn lemma_u64_round_trip(v: u64, rest: Seq<u8>)
    ensures
        dec_u64(enc_u64(v) + rest) == Some((v, rest)),
{
    reveal(enc_u64);
    reveal(dec_u64);
    let b = enc_u64(v) + rest;
    assert(b.len() >= 8);
    assert(b[0] == (v % 0x100) as u8);
    assert(b[1] == ((v / 0x100) % 0x100) as u8);
    assert(b[2] == ((v / 0x1_0000) % 0x100) as u8);
    assert(b[3] == ((v / 0x100_0000) % 0x100) as u8);
    assert(b[4] == ((v / 0x1_0000_0000) % 0x100) as u8);
    assert(b[5] == ((v / 0x100_0000_0000) % 0x100) as u8);
    assert(b[6] == ((v / 0x1_0000_0000_0000) % 0x100) as u8);
    assert(b[7] == ((v / 0x100_0000_0000_0000) % 0x100) as u8);
    assert((v % 0x100) + ((v / 0x100) % 0x100) * 0x100 + ((v / 0x1_0000) % 0x100) * 0x1_0000 + ((v
        / 0x100_0000) % 0x100) * 0x100_0000 + ((v / 0x1_0000_0000) % 0x100) * 0x1_0000_0000 + ((v
        / 0x100_0000_0000) % 0x100) * 0x100_0000_0000 + ((v / 0x1_0000_0000_0000) % 0x100)
        * 0x1_0000_0000_0000 + ((v / 0x100_0000_0000_0000) % 0x100) * 0x100_0000_0000_0000
        == v) by (bit_vector);
    assert(b.skip(8) =~= rest);
}

/// The four little-endian bytes of a value read back as that value.
proof fn lemma_u32_round_trip(v: u32, rest: Seq<u8>)
    ensures
        dec_u32(enc_u32(v) + rest) == Some((v, rest)),
{
    reveal(enc_u32);
    reveal(dec_u32);
    let b = enc_u32(v) + rest;
    assert(b.len() >= 4);
    assert(b[0] == (v % 0x100) as u8);
    assert(b[1] == ((v / 0x100) % 0x100) as u8);
    assert(b[2] == ((v / 0x1_0000) % 0x100) as u8);
    assert(b[3] == ((v / 0x100_0000) % 0x100) as u8);
    assert((v % 0x100) + ((v / 0x100) % 0x100) * 0x100 + ((v / 0x1_0000) % 0x100) * 0x1_0000 + ((v
        / 0x100_0000) % 0x100) * 0x100_0000 == v) by (bit_vector);
    assert(b.skip(4) =~= rest);
}

/// Encoded characters read back as themselves.
proof fn lemma_chars_round_trip(s: Seq<char>, rest: Seq<u8>)
    ensures
        dec_chars(enc_chars(s) + rest, s.len()) == Some((s, rest)),
    decreases s.len(),
{
    if s.len() == 0 {
        assert(enc_chars(s) + rest =~= rest);
    } else {
        let c = s[0];
        let v = c as u32;
        vstd::utf8::char_is_scalar(c);
        vstd::utf8::char_u32_cast(c, v);
        assert(enc_chars(s) + rest =~= enc_u32(v) + (enc_chars(s.drop_first()) + rest));
        lemma_u32_round_trip(v, enc_chars(s.drop_first()) + rest);
        lemma_chars_round_trip(s.drop_first(), rest);
        assert(seq![v as char] + s.drop_first() =~= s);
    }
}

/// An encoded part read back as itself.
proof fn lemma_part_round_trip(t: PartView, rest: Seq<u8>)
    requires
        crate::memory::part_nonempty(t),
        word_fits(t),
    ensures
        dec_part(enc_part(t) + rest) == Some((t, rest)),
{
    let b = enc_part(t) + rest;
    match t {
        PartView::Start => {
            assert(b[0] == 0);
            assert(b.skip(1) =~= rest);
        },
        PartView::End => {
            assert(b[0] == 1);
            assert(b.skip(1) =~= rest);
        },
        PartView::Word(w) => {
            assert(b[0] == 2);
            assert(b.skip(1) =~= enc_u64(w.len() as u64) + (enc_chars(w) + rest));
            lemma_u64_round_trip(w.len() as u64, enc_chars(w) + rest);
            lemma_chars_round_trip(w, rest);
        },
    }
}

/// Encoded table entries read back as themselves.
proof fn lemma_entries_round_trip(s: Seq<(PartView, nat)>, rest: Seq<u8>)
    requires
        table_words_nonempty(s),
        forall|i: int| 0 <= i < s.len() ==> 1 <= (#[trigger] s[i]).1 <= usize::MAX,
        forall|i: int| 0 <= i < s.len() ==> word_fits((#[trigger] s[i]).0),
    ensures
        dec_entries(enc_entries(s) + rest, s.len()) == Some((s, rest)),
    decreases s.len(),
{
    if s.len() == 0 {
        assert(enc_entries(s) + rest =~= rest);
    } else {
        let t = s[0].0;
        let cnt = s[0].1;
        assert(enc_entries(s) + rest =~= enc_part(t) + (enc_u64(cnt as u64) + (enc_entries(
            s.drop_first(),
        ) + rest)));
        lemma_part_round_trip(t, enc_u64(cnt as u64) + (enc_entries(s.drop_first()) + rest));
        lemma_u64_round_trip(cnt as u64, enc_entries(s.drop_first()) + rest);
        lemma_entries_round_trip(s.drop_first(), rest);
        assert(seq![(t, cnt)] + s.drop_first() =~= s);
    }
}

/// An encoded table read back as itself.
proof fn lemma_table_round_trip(s: Seq<(PartView, nat)>, rest: Seq<u8>)
    requires
        table_ok(s),
        s.len() <= usize::MAX,
        forall|i: int| 0 <= i < s.len() ==> word_fits((#[trigger] s[i]).0),
    ensures
        dec_table(enc_table(s) + rest) == Some((s, rest)),
{
    assert(enc_table(s) + rest =~= enc_u64(s.len() as u64) + (enc_entries(s) + rest));
    lemma_u64_round_trip(s.len() as u64, enc_entries(s) + rest);
    assert forall|i: int| 0 <= i < s.len() implies 1 <= (#[trigger] s[i]).1 <= usize::MAX by {
        crate::words::lemma_elem_le_sum(s, i);
    }
    lemma_entries_round_trip(s, rest);
}

/// A word small enough that its length fits the encoding.
pub open spec fn word_fits(t: PartView) -> bool {
    t matches PartView::Word(w) ==> w.len() <= u64::MAX
}

/// Bounds that one context entry of a model respects on this machine:
/// its parts carry text, word lengths fit the encoding, and the table
/// fits the address space.
pub open spec fn ctx_bounds(e: (PairView, Seq<(PartView, nat)>)) -> bool {
    &&& word_fits(e.0.prev)
    &&& word_fits(e.0.prev_prev)
    &&& crate::memory::part_nonempty(e.0.prev)
    &&& crate::memory::part_nonempty(e.0.prev_prev)
    &&& e.1.len() <= usize::MAX
    &&& (forall|j: int| 0 <= j < e.1.len() ==> word_fits((#[trigger] e.1[j]).0))
}

/// The bounds of every context entry at once.
pub open spec fn model_word_bounds(m: ModelView) -> bool {
    forall|i: int| 0 <= i < m.len() ==> ctx_bounds(#[trigger] m[i])
}

/// One encoded context read back piece by piece.
proof fn lemma_ctx_step(p: PairView, es: Seq<(PartView, nat)>, tb: Seq<u8>)
    requires
        table_ok(es),
        ctx_bounds((p, es)),
    ensures
        ({
            let b1 = enc_part(p.prev_prev) + (enc_table(es) + tb);
            let b0 = enc_part(p.prev) + b1;
            &&& dec_part(b0) == Some((p.prev, b1))
            &&& dec_part(b1) == Some((p.prev_prev, enc_table(es) + tb))
            &&& dec_table(enc_table(es) + tb) == Some((es, tb))
        }),
{
    let b1 = enc_part(p.prev_prev) + (enc_table(es) + tb);
    lemma_part_round_trip(p.prev, b1);
    lemma_part_round_trip(p.prev_prev, enc_table(es) + tb);
    lemma_table_round_trip(es, tb);
}

/// Encoded contexts read back as themselves.
#[verifier::rlimit(100)]
#[verifier::spinoff_prover]
proof fn lemma_ctxs_round_trip(m: ModelView, rest: Seq<u8>)
    requires
        forall|i: int| 0 <= i < m.len() ==> table_ok((#[trigger] m[i]).1),
        model_word_bounds(m),
    ensures
        dec_ctxs(enc_ctxs(m) + rest, m.len()) == Some((m, rest)),
    decreases m.len(),
{
    if m.len() == 0 {
        assert(enc_ctxs(m) + rest =~= rest);
    } else {
        let p = m[0].0;
        let es = m[0].1;
        let tail = m.drop_first();
        let tb = enc_ctxs(tail) + rest;
        assert(ctx_bounds(m[0]));
        assert(enc_ctxs(m) + rest =~= enc_part(p.prev) + (enc_part(p.prev_prev) + (enc_table(es)
            + tb)));
        lemma_ctx_step(p, es, tb);
        assert forall|i: int| 0 <= i < tail.len() implies table_ok((#[trigger] tail[i]).1) by {
            assert(tail[i] == m[i + 1]);
        }
        assert forall|i: int| 0 <= i < tail.len() implies ctx_bounds(#[trigger] tail[i]) by {
            assert(tail[i] == m[i + 1]);
        }
        lemma_ctxs_round_trip(tail, rest);
        assert(PairView { prev: p.prev, prev_prev: p.prev_prev } == p);
        assert(seq![(p, es)] + tail =~= m);
    }
}

/// Decoding undoes encoding: every well-formed model comes back
/// unchanged from its own encoding.
pub proof fn lemma_codec_round_trip(m: ModelView)
    requires
        model_ok(m),
        model_word_bounds(m),
    ensures
        spec_decode(spec_encode(m)) == Some(m),
{
    assert(spec_encode(m) =~= enc_u64(m.len() as u64) + enc_ctxs(m));
    lemma_u64_round_trip(m.len() as u64, enc_ctxs(m));
    assert(enc_ctxs(m) =~= enc_ctxs(m) + Seq::<u8>::empty());
    lemma_ctxs_round_trip(m, Seq::empty());
}


/// Appending a character to a word appends its encoding.
proof fn lemma_enc_chars_push(s: Seq<char>, c: char)
    ensures
        enc_chars(s.push(c)) == enc_chars(s) + enc_u32(c as u32),
    decreases s.len(),
{
    if s.len() == 0 {
        assert(s.push(c)[0] == c);
        assert(s.push(c).drop_first() =~= Seq::<char>::empty());
        assert(enc_chars(Seq::<char>::empty()) =~= Seq::<u8>::empty());
        assert(enc_chars(s.push(c)) =~= enc_u32(c as u32));
        assert(enc_chars(s) + enc_u32(c as u32) =~= enc_u32(c as u32));
    } else {
        assert(s.push(c)[0] == s[0]);
        assert(s.push(c).drop_first() =~= s.drop_first().push(c));
        lemma_enc_chars_push(s.drop_first(), c);
        assert(enc_chars(s.push(c)) =~= enc_u32(s[0] as u32) + (enc_chars(s.drop_first())
            + enc_u32(c as u32)));
        assert(enc_chars(s) + enc_u32(c as u32) =~= enc_u32(s[0] as u32) + (enc_chars(
        s.drop_first()) + enc_u32(c as u32)));
    }
}

/// Appending a table entry appends its encoding.
proof fn lemma_enc_entries_push(s: Seq<(PartView, nat)>, e: (PartView, nat))
    ensures
        enc_entries(s.push(e)) == enc_entries(s) + (enc_part(e.0) + enc_u64(e.1 as u64)),
    decreases s.len(),
{
    if s.len() == 0 {
        assert(s.push(e)[0] == e);
        assert(s.push(e).drop_first() =~= Seq::<(PartView, nat)>::empty());
        assert(enc_entries(Seq::<(PartView, nat)>::empty()) =~= Seq::<u8>::empty());
        assert(enc_entries(s.push(e)) =~= enc_part(e.0) + enc_u64(e.1 as u64));
        assert(enc_entries(s) + (enc_part(e.0) + enc_u64(e.1 as u64)) =~= enc_part(e.0)
            + enc_u64(e.1 as u64));
    } else {
        assert(s.push(e)[0] == s[0]);
        assert(s.push(e).drop_first() =~= s.drop_first().push(e));
        lemma_enc_entries_push(s.drop_first(), e);
        assert(enc_entries(s.push(e)) =~= enc_part(s[0].0) + enc_u64(s[0].1 as u64) + (enc_entries(
        s.drop_first()) + (enc_part(e.0) + enc_u64(e.1 as u64))));
        assert(enc_entries(s) + (enc_part(e.0) + enc_u64(e.1 as u64)) =~= enc_part(s[0].0)
            + enc_u64(s[0].1 as u64) + (enc_entries(s.drop_first()) + (enc_part(e.0) + enc_u64(
        e.1 as u64))));
    }
}

/// Appending a context appends its encoding.
proof fn lemma_enc_ctxs_push(m: ModelView, e: (PairView, Seq<(PartView, nat)>))
    ensures
        enc_ctxs(m.push(e)) == enc_ctxs(m) + (enc_part(e.0.prev) + enc_part(e.0.prev_prev)
            + enc_table(e.1)),
    decreases m.len(),
{
    if m.len() == 0 {
        assert(m.push(e)[0] == e);
        assert(m.push(e).drop_first() =~= Seq::<(PairView, Seq<(PartView, nat)>)>::empty());
        assert(enc_ctxs(Seq::<(PairView, Seq<(PartView, nat)>)>::empty()) =~= Seq::<u8>::empty());
        assert(enc_ctxs(m.push(e)) =~= enc_part(e.0.prev) + enc_part(e.0.prev_prev) + enc_table(
            e.1,
        ));
        assert(enc_ctxs(m) + (enc_part(e.0.prev) + enc_part(e.0.prev_prev) + enc_table(e.1)) =~=
        enc_part(e.0.prev) + enc_part(e.0.prev_prev) + enc_table(e.1));
    } else {
        assert(m.push(e)[0] == m[0]);
        assert(m.push(e).drop_first() =~= m.drop_first().push(e));
        lemma_enc_ctxs_push(m.drop_first(), e);
        assert(enc_ctxs(m.push(e)) =~= enc_part(m[0].0.prev) + enc_part(m[0].0.prev_prev)
            + enc_table(m[0].1) + (enc_ctxs(m.drop_first()) + (enc_part(e.0.prev) + enc_part(
        e.0.prev_prev) + enc_table(e.1))));
        assert(enc_ctxs(m) + (enc_part(e.0.prev) + enc_part(e.0.prev_prev) + enc_table(e.1)) =~=
        enc_part(m[0].0.prev) + enc_part(m[0].0.prev_prev) + enc_table(m[0].1) + (enc_ctxs(
        m.drop_first()) + (enc_part(e.0.prev) + enc_part(e.0.prev_prev) + enc_table(e.1))));
    }
}

/// Write the eight little-endian bytes of a value.
fn push_u64(out: &mut Vec<u8>, v: u64)
    ensures
        final(out)@ == old(out)@ + enc_u64(v),
{
    out.push((v % 0x100) as u8);
    out.push(((v / 0x100) % 0x100) as u8);
    out.push(((v / 0x1_0000) % 0x100) as u8);
    out.push(((v / 0x100_0000) % 0x100) as u8);
    out.push(((v / 0x1_0000_0000) % 0x100) as u8);
    out.push(((v / 0x100_0000_0000) % 0x100) as u8);
    out.push(((v / 0x1_0000_0000_0000) % 0x100) as u8);
    out.push(((v / 0x100_0000_0000_0000) % 0x100) as u8);
    proof {
        reveal(enc_u64);
        assert(out@ =~= old(out)@ + enc_u64(v));
    }
}

/// Write the four little-endian bytes of a value.
fn push_u32(out: &mut Vec<u8>, v: u32)
    ensures
        final(out)@ == old(out)@ + enc_u32(v),
{
    out.push((v % 0x100) as u8);
    out.push(((v / 0x100) % 0x100) as u8);
    out.push(((v / 0x1_0000) % 0x100) as u8);
    out.push(((v / 0x100_0000) % 0x100) as u8);
    proof {
        reveal(enc_u32);
        assert(out@ =~= old(out)@ + enc_u32(v));
    }
}

/// Write the characters of a word, each as its scalar value.
fn push_chars(out: &mut Vec<u8>, w: &str)
    ensures
        final(out)@ == old(out)@ + enc_chars(w@),
{
    let n = w.unicode_len();
    let mut i: usize = 0;
    proof {
        assert(w@.take(0) =~= Seq::<char>::empty());
        assert(out@ =~= old(out)@ + enc_chars(w@.take(0)));
    }
    while i < n
        invariant
            n == w@.len(),
            0 <= i <= n,
            out@ == old(out)@ + enc_chars(w@.take(i as int)),
        decreases n - i,
    {
        let c = w.get_char(i);
        push_u32(out, c as u32);
        proof {
            lemma_enc_chars_push(w@.take(i as int), c);
            assert(w@.take(i as int).push(c) =~= w@.take(i as int + 1));
            assert(out@ =~= old(out)@ + enc_chars(w@.take(i as int + 1)));
        }
        i += 1;
    }
    proof {
        assert(w@.take(n as int) =~= w@);
    }
}

/// Write one sentence part.
fn push_part(out: &mut Vec<u8>, p: &SentencePart)
    ensures
        final(out)@ == old(out)@ + enc_part(p@),
{
    match p {
        SentencePart::StartOfLine => {
            out.push(0u8);
            proof {
                assert(out@ =~= old(out)@ + enc_part(p@));
            }
        },
        SentencePart::EndOfLine => {
            out.push(1u8);
            proof {
                assert(out@ =~= old(out)@ + enc_part(p@));
            }
        },
        SentencePart::Word(w) => {
            out.push(2u8);
            let n = w.as_str().unicode_len();
            push_u64(out, n as u64);
            push_chars(out, w.as_str());
            proof {
                assert(enc_part(p@) == seq![2u8] + enc_u64(w@.len() as u64) + enc_chars(w@));
                assert(out@ =~= old(out)@ + enc_part(p@));
            }
        },
    }
}

/// Write one table: its entry count, then its entries.
fn push_table(out: &mut Vec<u8>, t: &NextPartList)
    ensures
        final(out)@ == old(out)@ + enc_table(t@),
{
    let n = t.len();
    push_u64(out, n as u64);
    let mut j: usize = 0;
    proof {
        assert(t@.take(0) =~= Seq::<(PartView, nat)>::empty());
        assert(enc_entries(t@.take(0)) =~= Seq::<u8>::empty());
        assert(out@ =~= old(out)@ + (enc_u64(t@.len() as u64) + enc_entries(t@.take(0))));
    }
    while j < n
        invariant
            n == t@.len(),
            0 <= j <= n,
            out@ == old(out)@ + (enc_u64(t@.len() as u64) + enc_entries(t@.take(j as int))),
        decreases n - j,
    {
        let e = t.entry_at(j);
        push_part(out, &e.0);
        push_u64(out, e.1 as u64);
        proof {
            lemma_enc_entries_push(t@.take(j as int), t@[j as int]);
            assert(t@.take(j as int).push(t@[j as int]) =~= t@.take(j as int + 1));
            assert(out@ =~= old(out)@ + (enc_u64(t@.len() as u64) + enc_entries(
                t@.take(j as int + 1),
            )));
        }
        j += 1;
    }
    proof {
        assert(t@.take(n as int) =~= t@);
        assert(out@ =~= old(out)@ + enc_table(t@));
    }
}

impl Memory {
    /// The deterministic binary encoding of the whole model, written
    /// field by field.
    pub fn to_bytes(&self) -> (r: Vec<u8>)
        ensures
            r@ == spec_encode(self@),
    {
        let mut out: Vec<u8> = Vec::new();
        let n = self.len();
        push_u64(&mut out, n as u64);
        let mut i: usize = 0;
        proof {
            assert(self@.take(0) =~= Seq::<(PairView, Seq<(PartView, nat)>)>::empty());
            assert(enc_ctxs(self@.take(0)) =~= Seq::<u8>::empty());
            assert(out@ =~= enc_u64(self@.len() as u64) + enc_ctxs(self@.take(0)));
        }
        while i < n
            invariant
                n == self@.len(),
                0 <= i <= n,
                out@ == enc_u64(self@.len() as u64) + enc_ctxs(self@.take(i as int)),
            decreases n - i,
        {
            let e = self.ctx_at(i);
            push_part(&mut out, e.0.prev_part());
            push_part(&mut out, e.0.prev_prev_part());
            push_table(&mut out, &e.1);
            proof {
                lemma_enc_ctxs_push(self@.take(i as int), self@[i as int]);
                assert(self@.take(i as int).push(self@[i as int]) =~= self@.take(i as int + 1));
                assert(out@ =~= enc_u64(self@.len() as u64) + enc_ctxs(self@.take(i as int + 1)));
            }
            i += 1;
        }
        proof {
            assert(self@.take(n as int) =~= self@);
            assert(out@ =~= spec_encode(self@));
        }
        out
    }
}

/// Relies on `char::from_u32`: it returns a character exactly for
/// Unicode scalar values, and that character casts back to the given
/// value.
#[verifier::external_body]
fn char_from_u32(u: u32) -> (r: Option<char>)
    ensures
        r is Some <==> vstd::utf8::is_scalar(u),
        r matches Some(c) ==> c as u32 == u,
{
    char::from_u32(u)
}

/// Relies on `Iterator::collect` for `String`: the string holds exactly
/// the characters of the vector, in order.
#[verifier::external_body]
fn chars_to_string(v: &Vec<char>) -> (r: String)
    ensures
        r@ == v@,
{
    v.iter().collect()
}

/// Read the eight little-endian bytes of a value.
fn read_u64<'a>(b: &'a [u8]) -> (r: Option<(u64, &'a [u8])>)
    ensures
        match r {
            Some(p) => dec_u64(b@) == Some((p.0, p.1@)),
            None => dec_u64(b@) is None,
        },
{
    proof {
        reveal(dec_u64);
    }
    if b.len() < 8 {
        return None;
    }
    let v: u64 = (*slice_index_get(b, 0) as u64) + (*slice_index_get(b, 1) as u64) * 0x100 + (
    *slice_index_get(b, 2) as u64) * 0x1_0000 + (*slice_index_get(b, 3) as u64) * 0x100_0000 + (
    *slice_index_get(b, 4) as u64) * 0x1_0000_0000 + (*slice_index_get(b, 5) as u64)
        * 0x100_0000_0000 + (*slice_index_get(b, 6) as u64) * 0x1_0000_0000_0000 + (
    *slice_index_get(b, 7) as u64) * 0x100_0000_0000_0000;
    let rest = slice_subrange(b, 8, b.len());
    proof {
        assert(rest@ =~= b@.skip(8));
    }
    Some((v, rest))
}

/// Read the four little-endian bytes of a value.
fn read_u32<'a>(b: &'a [u8]) -> (r: Option<(u32, &'a [u8])>)
    ensures
        match r {
            Some(p) => dec_u32(b@) == Some((p.0, p.1@)),
            None => dec_u32(b@) is None,
        },
{
    proof {
        reveal(dec_u32);
    }
    if b.len() < 4 {
        return None;
    }
    let v: u32 = (*slice_index_get(b, 0) as u32) + (*slice_index_get(b, 1) as u32) * 0x100 + (
    *slice_index_get(b, 2) as u32) * 0x1_0000 + (*slice_index_get(b, 3) as u32) * 0x100_0000;
    let rest = slice_subrange(b, 4, b.len());
    proof {
        assert(rest@ =~= b@.skip(4));
    }
    Some((v, rest))
}

/// Read `k` characters.
fn read_chars<'a>(b: &'a [u8], k: u64) -> (r: Option<(Vec<char>, &'a [u8])>)
    ensures
        match r {
            Some(p) => dec_chars(b@, k as nat) == Some((p.0@, p.1@)) && p.0@.len() == k as nat,
            None => dec_chars(b@, k as nat) is None,
        },
    decreases k,
{
    if k == 0 {
        let v: Vec<char> = Vec::new();
        proof {
            assert(v@ =~= Seq::<char>::empty());
        }
        return Some((v, b));
    }
    let (u, r1) = match read_u32(b) {
        None => { return None },
        Some(x) => x,
    };
    let c = match char_from_u32(u) {
        None => { return None },
        Some(c) => c,
    };
    proof {
        vstd::utf8::char_u32_cast(c, u);
    }
    let (mut cs, r2) = match read_chars(r1, k - 1) {
        None => { return None },
        Some(x) => x,
    };
    let ghost cs0 = cs@;
    cs.insert(0, c);
    proof {
        assert(cs@ =~= seq![u as char] + cs0);
    }
    Some((cs, r2))
}

/// Read one sentence part.
fn read_part<'a>(b: &'a [u8]) -> (r: Option<(SentencePart, &'a [u8])>)
    ensures
        match r {
            Some(p) => dec_part(b@) == Some((p.0@, p.1@)) && crate::memory::part_nonempty(p.0@),
            None => dec_part(b@) is None,
        },
{
    if b.len() < 1 {
        return None;
    }
    let tag = *slice_index_get(b, 0);
    let rest = slice_subrange(b, 1, b.len());
    proof {
        assert(rest@ =~= b@.skip(1));
    }
    if tag == 0 {
        Some((SentencePart::StartOfLine, rest))
    } else if tag == 1 {
        Some((SentencePart::EndOfLine, rest))
    } else if tag == 2 {
        let (k, r2) = match read_u64(rest) {
            None => { return None },
            Some(x) => x,
        };
        if k < 1 {
            return None;
        }
        let (cs, r3) = match read_chars(r2, k) {
            None => { return None },
            Some(x) => x,
        };
        let w = chars_to_string(&cs);
        Some((SentencePart::Word(w), r3))
    } else {
        None
    }
}

/// Read `j` table entries.
fn read_entries<'a>(b: &'a [u8], j: u64) -> (r: Option<(Vec<(SentencePart, usize)>, &'a [u8])>)
    ensures
        match r {
            Some(p) => dec_entries(b@, j as nat) == Some((entries_view(p.0@), p.1@)),
            None => dec_entries(b@, j as nat) is None,
        },
    decreases j,
{
    if j == 0 {
        let v: Vec<(SentencePart, usize)> = Vec::new();
        proof {
            assert(entries_view(v@) =~= Seq::<(PartView, nat)>::empty());
        }
        return Some((v, b));
    }
    let (t, r1) = match read_part(b) {
        None => { return None },
        Some(x) => x,
    };
    let (cnt, r2) = match read_u64(r1) {
        None => { return None },
        Some(x) => x,
    };
    if cnt < 1 || cnt > usize::MAX as u64 {
        return None;
    }
    let (mut es, r3) = match read_entries(r2, j - 1) {
        None => { return None },
        Some(x) => x,
    };
    let ghost es0 = es@;
    es.insert(0, (t, cnt as usize));
    proof {
        assert(entries_view(es@) =~= seq![(t@, cnt as nat)] + entries_view(es0));
    }
    Some((es, r3))
}

/// Whether raw table entries have distinct keys, positive counts, and
/// non-empty words.
fn check_table(es: &Vec<(SentencePart, usize)>) -> (r: bool)
    ensures
        r == ({
            let v = entries_view(es@);
            &&& distinct_keys(v)
            &&& (forall|a: int| 0 <= a < v.len() ==> (#[trigger] v[a]).1 >= 1)
            &&& table_words_nonempty(v)
        }),
{
    let ghost v = entries_view(es@);
    let mut i: usize = 0;
    while i < es.len()
        invariant
            v == entries_view(es@),
            0 <= i <= es@.len(),
            forall|a: int, b2: int| #![trigger v[a], v[b2]] 0 <= a < b2 < i ==> v[a].0 != v[b2].0,
            forall|a: int| 0 <= a < i ==> (#[trigger] v[a]).1 >= 1,
            forall|a: int| 0 <= a < i ==> crate::memory::part_nonempty((#[trigger] v[a]).0),
        decreases es@.len() - i,
    {
        proof {
            assert(v[i as int] == (es@[i as int].0@, es@[i as int].1 as nat));
        }
        let e = &es[i];
        if e.1 < 1 {
            proof {
                assert(v[i as int].1 < 1);
            }
            return false;
        }
        let word_empty = match &e.0 {
            SentencePart::Word(w) => w.as_str().is_empty(),
            _ => false,
        };
        if word_empty {
            proof {
                assert(!crate::memory::part_nonempty(v[i as int].0));
            }
            return false;
        }
        let mut j: usize = 0;
        while j < i
            invariant
                v == entries_view(es@),
                0 <= j <= i < es@.len(),
                forall|a: int| 0 <= a < j ==> (#[trigger] v[a]).0 != v[i as int].0,
            decreases i - j,
        {
            proof {
                assert(v[j as int] == (es@[j as int].0@, es@[j as int].1 as nat));
                assert(v[i as int] == (es@[i as int].0@, es@[i as int].1 as nat));
            }
            let same = {
                let ej = &es[j];
                let ei = &es[i];
                part_eq(&ej.0, &ei.0)
            };
            if same {
                proof {
                    assert(v[j as int].0 == v[i as int].0);
                }
                return false;
            }
            j += 1;
        }
        i += 1;
    }
    true
}

/// Compute the sum of the raw counts, refusing a sum past the machine
/// limit.
fn sum_counts(es: &Vec<(SentencePart, usize)>) -> (r: Option<usize>)
    ensures
        ({
            let v = entries_view(es@);
            match r {
                Some(tot) => tot as nat == seq_sum(v),
                None => seq_sum(v) > usize::MAX,
            }
        }),
{
    let ghost v = entries_view(es@);
    let mut tot: usize = 0;
    let mut i: usize = 0;
    proof {
        assert(v.take(0) =~= Seq::<(PartView, nat)>::empty());
    }
    while i < es.len()
        invariant
            v == entries_view(es@),
            0 <= i <= es@.len(),
            tot as nat == seq_sum(v.take(i as int)),
        decreases es@.len() - i,
    {
        proof {
            assert(v[i as int] == (es@[i as int].0@, es@[i as int].1 as nat));
            assert(v.take(i as int + 1).drop_last() =~= v.take(i as int));
            assert(v.take(i as int + 1).last() == v[i as int]);
        }
        let e = &es[i];
        tot = match tot.checked_add(e.1) {
            Some(t) => t,
            None => {
                proof {
                    lemma_seq_sum_take_le(v, i as int + 1);
                }
                return None;
            },
        };
        i += 1;
    }
    proof {
        assert(v.take(es@.len() as int) =~= v);
    }
    Some(tot)
}

/// Read one table, refusing one that is not well-formed.
fn read_table<'a>(b: &'a [u8]) -> (r: Option<(NextPartList, &'a [u8])>)
    ensures
        match r {
            Some(p) => {
                &&& dec_table(b@) == Some((p.0@, p.1@))
                &&& p.0.wf()
                &&& p.0@.len() >= 1
                &&& table_words_nonempty(p.0@)
            },
            None => dec_table(b@) is None,
        },
{
    let (j, r1) = match read_u64(b) {
        None => { return None },
        Some(x) => x,
    };
    if j < 1 || j > usize::MAX as u64 {
        return None;
    }
    let (es, r2) = match read_entries(r1, j) {
        None => { return None },
        Some(x) => x,
    };
    if es.len() == 0 {
        return None;
    }
    if !check_table(&es) {
        return None;
    }
    let tot = match sum_counts(&es) {
        None => { return None },
        Some(t) => t,
    };
    let t = NextPartList::assemble(es, tot);
    Some((t, r2))
}

/// Read `n` contexts, each with its table.
fn read_ctxs<'a>(b: &'a [u8], n: u64) -> (r: Option<
    (Vec<(SentencePartPair, NextPartList)>, &'a [u8]),
>)
    ensures
        match r {
            Some(p) => {
                &&& dec_ctxs(b@, n as nat) == Some((mem_entries_view(p.0@), p.1@))
                &&& (forall|i: int| 0 <= i < p.0@.len() ==> (#[trigger] p.0@[i]).1.wf())
                &&& (forall|i: int| 0 <= i < p.0@.len() ==> (#[trigger] p.0@[i]).1@.len() >= 1)
                &&& (forall|i: int|
                    0 <= i < p.0@.len() ==> table_words_nonempty((#[trigger] p.0@[i]).1@))
                &&& (forall|i: int|
                    0 <= i < p.0@.len() ==> crate::memory::part_nonempty(
                        (#[trigger] p.0@[i]).0@.prev,
                    ) && crate::memory::part_nonempty(p.0@[i].0@.prev_prev))
            },
            None => dec_ctxs(b@, n as nat) is None,
        },
    decreases n,
{
    if n == 0 {
        let v: Vec<(SentencePartPair, NextPartList)> = Vec::new();
        proof {
            assert(mem_entries_view(v@) =~= Seq::<(PairView, Seq<(PartView, nat)>)>::empty());
        }
        return Some((v, b));
    }
    let (prev, r1) = match read_part(b) {
        None => { return None },
        Some(x) => x,
    };
    let (prev_prev, r2) = match read_part(r1) {
        None => { return None },
        Some(x) => x,
    };
    let (t, r3) = match read_table(r2) {
        None => { return None },
        Some(x) => x,
    };
    let (mut ws, r4) = match read_ctxs(r3, n - 1) {
        None => { return None },
        Some(x) => x,
    };
    let ghost ws0 = ws@;
    let pair = SentencePartPair::from_parts(prev, prev_prev);
    let ghost pv = pair@;
    let ghost tv = t@;
    ws.insert(0, (pair, t));
    proof {
        assert(mem_entries_view(ws@) =~= seq![(pv, tv)] + mem_entries_view(ws0));
        assert forall|i: int| 0 <= i < ws@.len() implies (#[trigger] ws@[i]).1.wf()
            && ws@[i].1@.len() >= 1 && table_words_nonempty(ws@[i].1@)
            && crate::memory::part_nonempty(ws@[i].0@.prev) && crate::memory::part_nonempty(
            ws@[i].0@.prev_prev,
        ) by {
            if i > 0 {
                assert(ws@[i] == ws0[i - 1]);
            }
        }
    }
    Some((ws, r4))
}

/// Whether raw context entries have distinct keys.
fn check_ctxs(ws: &Vec<(SentencePartPair, NextPartList)>) -> (r: bool)
    ensures
        r == distinct_keys(mem_entries_view(ws@)),
{
    let ghost v = mem_entries_view(ws@);
    let mut i: usize = 0;
    while i < ws.len()
        invariant
            v == mem_entries_view(ws@),
            0 <= i <= ws@.len(),
            forall|a: int, b2: int| #![trigger v[a], v[b2]] 0 <= a < b2 < i ==> v[a].0 != v[b2].0,
        decreases ws@.len() - i,
    {
        let mut j: usize = 0;
        while j < i
            invariant
                v == mem_entries_view(ws@),
                0 <= j <= i < ws@.len(),
                forall|a: int| 0 <= a < j ==> (#[trigger] v[a]).0 != v[i as int].0,
            decreases i - j,
        {
            proof {
                assert(v[j as int] == (ws@[j as int].0@, ws@[j as int].1@));
                assert(v[i as int] == (ws@[i as int].0@, ws@[i as int].1@));
            }
            let same = {
                let ej = &ws[j];
                let ei = &ws[i];
                pair_eq(&ej.0, &ei.0)
            };
            if same {
                proof {
                    assert(v[j as int].0 == v[i as int].0);
                }
                return false;
            }
            j += 1;
        }
        i += 1;
    }
    true
}

impl Memory {
    /// Decode a model from its binary encoding: exactly the encodings of
    /// well-formed models are accepted, and everything else is a decode
    /// error.
    pub fn from_bytes(bytes: &[u8]) -> (r: Result<Memory, Error>)
        ensures
            match r {
                Ok(m) => m.wf() && spec_decode(bytes@) == Some(m@),
                Err(e) => spec_decode(bytes@) is None && e is CouldNotDeserialize,
            },
    {
        let (n, r1) = match read_u64(bytes) {
            None => { return Err(Error::CouldNotDeserialize) },
            Some(x) => x,
        };
        if n > usize::MAX as u64 {
            return Err(Error::CouldNotDeserialize);
        }
        let (ws, r2) = match read_ctxs(r1, n) {
            None => { return Err(Error::CouldNotDeserialize) },
            Some(x) => x,
        };
        if r2.len() != 0 {
            return Err(Error::CouldNotDeserialize);
        }
        if !check_ctxs(&ws) {
            return Err(Error::CouldNotDeserialize);
        }
        Ok(Memory::assemble(ws))
    }
}

impl Memory {
    /// The view of every well-formed model meets what decoding demands.
    pub proof fn lemma_view_model_ok(&self)
        requires
            self.wf(),
        ensures
            model_ok(self@),
    {
        self.lemma_wf_view_facts();
    }
}

/// What reading the first entry of an archive yields on given archive
/// bytes; reading an archive held fully in memory is deterministic.
pub uninterp spec fn unzip_first_of(archive: Seq<u8>) -> Option<Seq<u8>>;

/// The archive that packing given entry bytes produces: deflate is
/// deterministic and, with zip's "time" feature off, the entry carries a
/// constant timestamp, so the archive is a function of the bytes alone.
pub uninterp spec fn packed_of(data: Seq<u8>) -> Seq<u8>;

/// Relies on zip's `ZipWriter::new`, `start_file` with deflate
/// compression, `Write::write_all` and `finish`, writing one entry into
/// an in-memory archive: an archive written this way reads back as that
/// one entry, and writing fails only when the entry runs against the
/// archive format's 4 GiB size field — data up to `0xFF00_0000` bytes
/// stays below it even after worst-case deflate expansion, so there
/// success is promised.
#[verifier::external_body]
fn zip_pack(data: &Vec<u8>) -> (r: Result<Vec<u8>, Error>)
    ensures
        r matches Ok(v) ==> unzip_first_of(v@) == Some(data@) && v@ == packed_of(data@),
        r matches Err(e) ==> e is CouldNotCreateZipEntry && data@.len() > 0xFF00_0000,
{
    let cursor = std::io::Cursor::new(Vec::new());
    let mut writer = zip::ZipWriter::new(cursor);
    let options = zip::write::SimpleFileOptions::default().compression_method(
        zip::CompressionMethod::Deflated,
    );
    if writer.start_file("memory.dat", options).is_err() {
        return Err(Error::CouldNotCreateZipEntry);
    }
    if std::io::Write::write_all(&mut writer, data.as_slice()).is_err() {
        return Err(Error::CouldNotCreateZipEntry);
    }
    match writer.finish() {
        Ok(c) => Ok(c.into_inner()),
        Err(_) => Err(Error::CouldNotCreateZipEntry),
    }
}

/// Relies on zip's `ZipArchive::new`, `by_index` and `Read::read_to_end`,
/// reading the first entry of an in-memory archive; parsing given bytes
/// is deterministic, and the result stands for exactly that reading.
#[verifier::external_body]
fn zip_unpack(archive: &[u8]) -> (r: Result<Vec<u8>, Error>)
    ensures
        r matches Ok(v) ==> unzip_first_of(archive@) == Some(v@),
        r matches Err(e) ==> unzip_first_of(archive@) is None && (e is CouldNotReadZip
            || e is CouldNotReadFirstFile),
{
    let mut reader = match zip::ZipArchive::new(std::io::Cursor::new(archive)) {
        Ok(a) => a,
        Err(_) => return Err(Error::CouldNotReadZip),
    };
    let mut entry = match reader.by_index(0) {
        Ok(e) => e,
        Err(_) => return Err(Error::CouldNotReadFirstFile),
    };
    let mut buf = Vec::new();
    match std::io::Read::read_to_end(&mut entry, &mut buf) {
        Ok(_) => Ok(buf),
        Err(_) => Err(Error::CouldNotReadFirstFile),
    }
}

impl Memory {
    /// Serialize this model to its binary encoding and store that as the
    /// sole deflate-compressed entry of an archive, returned as bytes;
    /// the caller decides where the archive goes. Success is owed for
    /// every encoding that stays clear of the archive format's 4 GiB
    /// size field, and the archive bytes are then pinned.
    pub fn save(&self) -> (r: Result<Vec<u8>, Error>)
        ensures
            r matches Ok(v) ==> unzip_first_of(v@) == Some(spec_encode(self@)) && v@ == packed_of(
                spec_encode(self@),
            ),
            r matches Err(e) ==> e is CouldNotCreateZipEntry && spec_encode(self@).len()
                > 0xFF00_0000,
    {
        let data = self.to_bytes();
        zip_pack(&data)
    }

    /// Open archive bytes, take their first entry regardless of name,
    /// and decode the model stored in it.
    pub fn load(bytes: &[u8]) -> (r: Result<Memory, Error>)
        ensures
            match r {
                Ok(m) => m.wf() && (unzip_first_of(bytes@) matches Some(d) && spec_decode(d)
                    == Some(m@)),
                Err(e) => {
                    &&& (unzip_first_of(bytes@) is None ==> (e is CouldNotReadZip
                        || e is CouldNotReadFirstFile))
                    &&& (unzip_first_of(bytes@) matches Some(d) ==> spec_decode(d) is None
                        && e is CouldNotDeserialize)
                },
            },
    {
        match zip_unpack(bytes) {
            Ok(d) => Memory::from_bytes(d.as_slice()),
            Err(e) => Err(e),
        }
    }
}

} // verus!
