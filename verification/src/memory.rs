//! The learned model: a mapping from two-part contexts to the frequency
//! table of their observed continuations, with incremental learning and
//! stochastic sentence generation.

use crate::text::lower_seq;
use crate::text::split_words;
use crate::text::to_ascii_lower;
use crate::text::tokens_of;
use crate::words::assoc_contains;
use crate::words::assoc_index;
use crate::words::bump_table;
use crate::words::clone_pair;
use crate::words::distinct_keys;
use crate::words::init_pair;
use crate::words::lemma_assoc_absent;
use crate::words::lemma_assoc_index_unique;
use crate::words::pair_eq;
use crate::words::seeded_pair;
use crate::words::shifted_pair;
use crate::words::lemma_elem_le_sum;
use crate::words::lemma_seq_sum_update;
use crate::words::spec_count;
use crate::words::lemma_selected_in_range;
use crate::words::lemma_selected_is_recorded;
use crate::words::seq_sum;
use crate::words::table_wf;
use crate::words::NextPartList;
use crate::words::PairView;
use crate::words::PartView;
use crate::words::SentencePart;
use crate::words::SentencePartPair;
use vstd::prelude::*;
use vstd::string::StringExecFns;

verus! {

/// Mathematical value of a [`Memory`]: the contexts in insertion order,
/// each with its table of continuation counts.
pub type ModelView = Seq<(PairView, Seq<(PartView, nat)>)>;

/// A word part never carries empty text.
pub open spec fn part_nonempty(t: PartView) -> bool {
    match t {
        PartView::Word(w) => w.len() >= 1,
        _ => true,
    }
}

/// Every word recorded in a table carries at least one character.
pub open spec fn table_words_nonempty(s: Seq<(PartView, nat)>) -> bool {
    forall|j: int| 0 <= j < s.len() ==> part_nonempty((#[trigger] s[j]).0)
}

/// One observed transition recorded into the model: the context's table
/// gets one more observation of the part, and a missing context starts
/// with a fresh table holding that one observation.
pub open spec fn bump_model(m: ModelView, k: PairView, t: PartView) -> ModelView {
    if assoc_contains(m, k) {
        let i = assoc_index(m, k);
        m.update(i, (k, bump_table(m[i].1, t)))
    } else {
        m.push((k, bump_table(Seq::empty(), t)))
    }
}

/// All transitions of a sequence recorded one after the other.
pub open spec fn apply_all(m: ModelView, ts: Seq<(PairView, PartView)>) -> ModelView
    decreases ts.len(),
{
    if ts.len() == 0 {
        m
    } else {
        apply_all(bump_model(m, ts[0].0, ts[0].1), ts.drop_first())
    }
}

/// The context-to-next-part transitions observed while walking the given
/// words from the given context: a transition is recorded only where the
/// context's most recent slot already holds a word, and the walk closes
/// with a transition to the end-of-line marker.
pub open spec fn transitions_from(ctx: PairView, ws: Seq<Seq<char>>) -> Seq<(PairView, PartView)>
    decreases ws.len(),
{
    if ws.len() == 0 {
        if ctx.prev is Word {
            seq![(ctx, PartView::End)]
        } else {
            Seq::empty()
        }
    } else {
        let w = PartView::Word(ws[0]);
        let rest = transitions_from(shifted_pair(ctx, w), ws.drop_first());
        if ctx.prev is Word {
            seq![(ctx, w)] + rest
        } else {
            rest
        }
    }
}

/// Every transition one line of text contributes to the model.
pub open spec fn line_transitions(line: Seq<char>) -> Seq<(PairView, PartView)> {
    transitions_from(init_pair(), tokens_of(line))
}

/// Every part recorded in a table is a literal word.
pub open spec fn table_all_words(s: Seq<(PartView, nat)>) -> bool {
    forall|j: int| 0 <= j < s.len() ==> (#[trigger] s[j]).0 is Word
}

/// The context reached after walking the given words from `ctx`.
pub open spec fn ctx_after(ctx: PairView, ws: Seq<Seq<char>>) -> PairView
    decreases ws.len(),
{
    if ws.len() == 0 {
        ctx
    } else {
        ctx_after(shifted_pair(ctx, PartView::Word(ws[0])), ws.drop_first())
    }
}

/// Each word of `ws` was recorded as a continuation of the context
/// walked so far, starting from `ctx`.
pub open spec fn chain_from(m: ModelView, ctx: PairView, ws: Seq<Seq<char>>) -> bool
    decreases ws.len(),
{
    if ws.len() == 0 {
        true
    } else {
        &&& assoc_contains(m, ctx)
        &&& assoc_contains(m[assoc_index(m, ctx)].1, PartView::Word(ws[0]))
        &&& chain_from(m, shifted_pair(ctx, PartView::Word(ws[0])), ws.drop_first())
    }
}

/// The words joined with single spaces.
pub open spec fn joined(ws: Seq<Seq<char>>) -> Seq<char>
    decreases ws.len(),
{
    if ws.len() == 0 {
        Seq::empty()
    } else if ws.len() == 1 {
        ws[0]
    } else {
        ws[0] + seq![' '] + joined(ws.drop_first())
    }
}

/// Walking one more word shifts the reached context once more.
proof fn lemma_ctx_after_push(ctx: PairView, ws: Seq<Seq<char>>, w: Seq<char>)
    ensures
        ctx_after(ctx, ws.push(w)) == shifted_pair(ctx_after(ctx, ws), PartView::Word(w)),
    decreases ws.len(),
{
    if ws.len() == 0 {
        assert(ws.push(w)[0] == w);
        assert(ws.push(w).drop_first() =~= Seq::<Seq<char>>::empty());
        assert(ctx_after(ctx, ws.push(w)) == ctx_after(
            shifted_pair(ctx, PartView::Word(w)),
            Seq::<Seq<char>>::empty(),
        ));
        assert(ctx_after(shifted_pair(ctx, PartView::Word(w)), Seq::<Seq<char>>::empty())
            == shifted_pair(ctx, PartView::Word(w)));
    } else {
        assert(ws.push(w)[0] == ws[0]);
        assert(ws.push(w).drop_first() =~= ws.drop_first().push(w));
        lemma_ctx_after_push(shifted_pair(ctx, PartView::Word(ws[0])), ws.drop_first(), w);
        assert(ctx_after(ctx, ws.push(w)) == ctx_after(
            shifted_pair(ctx, PartView::Word(ws[0])),
            ws.drop_first().push(w),
        ));
        assert(ctx_after(ctx, ws) == ctx_after(
            shifted_pair(ctx, PartView::Word(ws[0])),
            ws.drop_first(),
        ));
    }
}

/// A recorded chain grows by one word when that word is recorded as a
/// continuation of the context the chain has reached.
proof fn lemma_chain_push(m: ModelView, ctx: PairView, ws: Seq<Seq<char>>, w: Seq<char>)
    requires
        chain_from(m, ctx, ws),
        assoc_contains(m, ctx_after(ctx, ws)),
        assoc_contains(m[assoc_index(m, ctx_after(ctx, ws))].1, PartView::Word(w)),
    ensures
        chain_from(m, ctx, ws.push(w)),
    decreases ws.len(),
{
    if ws.len() == 0 {
        assert(ws.push(w)[0] == w);
        assert(ws.push(w).drop_first() =~= Seq::<Seq<char>>::empty());
        assert(chain_from(m, shifted_pair(ctx, PartView::Word(w)), Seq::<Seq<char>>::empty()));
        assert(ctx_after(ctx, ws) == ctx);
    } else {
        assert(ws.push(w)[0] == ws[0]);
        assert(ws.push(w).drop_first() =~= ws.drop_first().push(w));
        assert(ctx_after(ctx, ws) == ctx_after(
            shifted_pair(ctx, PartView::Word(ws[0])),
            ws.drop_first(),
        ));
        lemma_chain_push(m, shifted_pair(ctx, PartView::Word(ws[0])), ws.drop_first(), w);
    }
}

/// Joining one more word onto a non-empty join adds one space and the
/// word.
proof fn lemma_joined_push(ws: Seq<Seq<char>>, w: Seq<char>)
    requires
        ws.len() >= 1,
    ensures
        joined(ws.push(w)) == joined(ws) + seq![' '] + w,
    decreases ws.len(),
{
    if ws.len() == 1 {
        assert(ws.push(w)[0] == ws[0]);
        assert(ws.push(w).drop_first() =~= seq![w]);
        assert(joined(seq![w]) == w);
        assert(joined(ws.push(w)) =~= ws[0] + seq![' '] + w);
        assert(joined(ws) + seq![' '] + w =~= ws[0] + seq![' '] + w);
    } else {
        assert(ws.push(w)[0] == ws[0]);
        assert(ws.push(w).drop_first() =~= ws.drop_first().push(w));
        lemma_joined_push(ws.drop_first(), w);
        assert(joined(ws.push(w)) =~= ws[0] + seq![' '] + joined(ws.drop_first().push(w)));
        assert(joined(ws) + seq![' '] + w =~= ws[0] + seq![' '] + (joined(ws.drop_first())
            + seq![' '] + w));
        assert(joined(ws.drop_first().push(w)) =~= joined(ws.drop_first()) + seq![' '] + w);
    }
}

/// A context at which generation may stop before the break rule can
/// fire: the context is unknown to the model, or its table holds
/// something besides words.
pub open spec fn walk_blocked(m: ModelView, ctx: PairView) -> bool {
    ||| !assoc_contains(m, ctx)
    ||| !table_all_words(m[assoc_index(m, ctx)].1)
}

/// The break rule of generation: after `produced` words, the walk stops
/// exactly when a freshly drawn percentage falls below
/// `(produced / 3) * 10` — zero below three words, ten points more for
/// every further three, and certain from thirty words on, where the
/// formula passes one hundred.
pub fn break_decision(produced: usize, draw: usize) -> (r: bool)
    requires
        draw < 100,
    ensures
        r == (draw < (produced / 3) * 10),
{
    let c = produced / 3;
    if c >= 10 {
        true
    } else {
        draw < c * 10
    }
}

/// Relies on `rand::random_range` over `0..n`: a uniformly distributed
/// integer below `n`, drawn from the thread-local generator.
#[verifier::external_body]
fn draw_below(n: usize) -> (r: usize)
    requires
        n >= 1,
    ensures
        r < n,
{
    rand::random_range(0..n)
}

/// The model. This contains the history of all the word combinations it
/// has seen.
///
/// A model is created with `Default::default()`, taught new sentences
/// with [`Memory::learn`], and asked for a sentence that starts with a
/// given word with [`Memory::speak`]. [`Memory::save`] and
/// [`Memory::load`] move the whole model through an archived byte
/// encoding.
#[derive(Debug)]
pub struct Memory {
    words: Vec<(SentencePartPair, NextPartList)>,
}

/// The mathematical value of a sequence of stored context entries.
pub open spec fn mem_entries_view(s: Seq<(SentencePartPair, NextPartList)>) -> ModelView {
    s.map_values(|e: (SentencePartPair, NextPartList)| (e.0@, e.1@))
}

impl View for Memory {
    type V = ModelView;

    closed spec fn view(&self) -> ModelView {
        mem_entries_view(self.words@)
    }
}

impl Default for Memory {
    /// An empty model.
    fn default() -> (r: Self)
        ensures
            r@ == Seq::<(PairView, Seq<(PartView, nat)>)>::empty(),
            r.wf(),
    {
        let r = Memory { words: Vec::new() };
        proof {
            assert(r@ =~= Seq::<(PairView, Seq<(PartView, nat)>)>::empty());
        }
        r
    }
}

impl Memory {
    /// Well-formed: contexts are distinct, every table is well-formed and
    /// holds at least one entry, and neither a recorded word nor a word
    /// in a context key is ever empty.
    pub closed spec fn wf(&self) -> bool {
        &&& distinct_keys(self@)
        &&& (forall|i: int|
            0 <= i < self.words@.len() ==> (#[trigger] self.words@[i]).1.wf())
        &&& (forall|i: int| 0 <= i < self@.len() ==> (#[trigger] self@[i]).1.len() >= 1)
        &&& (forall|i: int|
            0 <= i < self@.len() ==> table_words_nonempty((#[trigger] self@[i]).1))
        &&& (forall|i: int|
            0 <= i < self@.len() ==> part_nonempty((#[trigger] self@[i]).0.prev)
                && part_nonempty(self@[i].0.prev_prev))
    }

    /// The number of distinct contexts the model has seen.
    pub fn len(&self) -> (r: usize)
        ensures
            r == self@.len(),
    {
        self.words.len()
    }

    /// The stored context entry at one position.
    pub(crate) fn ctx_at(&self, i: usize) -> (e: &(SentencePartPair, NextPartList))
        requires
            i < self@.len(),
        ensures
            (e.0@, e.1@) == self@[i as int],
    {
        &self.words[i]
    }

    /// Build a model from checked context entries.
    pub(crate) fn assemble(words: Vec<(SentencePartPair, NextPartList)>) -> (r: Memory)
        requires
            distinct_keys(mem_entries_view(words@)),
            forall|i: int| 0 <= i < words@.len() ==> (#[trigger] words@[i]).1.wf(),
            forall|i: int| 0 <= i < words@.len() ==> (#[trigger] words@[i]).1@.len() >= 1,
            forall|i: int|
                0 <= i < words@.len() ==> table_words_nonempty((#[trigger] words@[i]).1@),
            forall|i: int|
                0 <= i < words@.len() ==> part_nonempty((#[trigger] words@[i]).0@.prev)
                    && part_nonempty(words@[i].0@.prev_prev),
        ensures
            r@ == mem_entries_view(words@),
            r.wf(),
    {
        let r = Memory { words };
        proof {
            assert forall|i: int| 0 <= i < r@.len() implies (#[trigger] r@[i]).1.len() >= 1
                && table_words_nonempty(r@[i].1) && part_nonempty(r@[i].0.prev) && part_nonempty(
                r@[i].0.prev_prev,
            ) by {
                assert(r@[i] == (r.words@[i].0@, r.words@[i].1@));
            }
        }
        r
    }

    /// The table of continuations recorded for the given context, if the
    /// context has been seen.
    pub fn lookup(&self, pair: &SentencePartPair) -> (r: Option<&NextPartList>)
        requires
            self.wf(),
        ensures
            match r {
                Some(t) => {
                    &&& assoc_contains(self@, pair@)
                    &&& t@ == self@[assoc_index(self@, pair@)].1
                    &&& t.wf()
                    &&& t@.len() >= 1
                    &&& table_words_nonempty(t@)
                },
                None => !assoc_contains(self@, pair@),
            },
    {
        let mut i: usize = 0;
        while i < self.words.len()
            invariant
                self.wf(),
                0 <= i <= self@.len(),
                forall|j: int| 0 <= j < i ==> (#[trigger] self@[j]).0 != pair@,
            decreases self@.len() - i,
        {
            let e = &self.words[i];
            proof {
                assert(self@[i as int] == (self.words@[i as int].0@, self.words@[i as int].1@));
            }
            if pair_eq(&e.0, pair) {
                proof {
                    lemma_assoc_index_unique(self@, pair@, i as int);
                }
                return Some(&e.1);
            }
            i += 1;
        }
        proof {
            lemma_assoc_absent(self@, pair@);
        }
        None
    }

    /// Record one observed transition: the context's table counts one
    /// more observation of `part`.
    fn record(&mut self, pair: &SentencePartPair, part: SentencePart)
        requires
            old(self).wf(),
            part_nonempty(part@),
            part_nonempty(pair@.prev),
            part_nonempty(pair@.prev_prev),
        ensures
            final(self).wf(),
            final(self)@ == bump_model(old(self)@, pair@, part@),
    {
        let ghost m0 = old(self)@;
        let mut i: usize = 0;
        while i < self.words.len()
            invariant
                self.wf(),
                self@ == m0,
                m0 == old(self)@,
                part_nonempty(part@),
                part_nonempty(pair@.prev),
                part_nonempty(pair@.prev_prev),
                0 <= i <= self@.len(),
                forall|j: int| 0 <= j < i ==> (#[trigger] self@[j]).0 != pair@,
            decreases self@.len() - i,
        {
            let found = {
                let e = &self.words[i];
                pair_eq(&e.0, pair)
            };
            proof {
                assert(self@[i as int] == (self.words@[i as int].0@, self.words@[i as int].1@));
            }
            if found {
                proof {
                    lemma_assoc_index_unique(m0, pair@, i as int);
                    self.words@[i as int].1.lemma_wf_view();
                }
                let e = &mut self.words[i];
                e.1.count_part(part);
                proof {
                    assert(self@ =~= m0.update(i as int, (pair@, bump_table(m0[i as int].1, part@))));
                    assert(self@ == bump_model(m0, pair@, part@));
                    lemma_bump_table_wf(m0[i as int].1, part@);
                }
                return ;
            }
            i += 1;
        }
        proof {
            lemma_assoc_absent(m0, pair@);
        }
        let mut table = NextPartList::default();
        table.count_part(part);
        self.words.push((clone_pair(pair), table));
        proof {
            assert(self@ =~= m0.push((pair@, bump_table(Seq::empty(), part@))));
            assert(self@ == bump_model(m0, pair@, part@));
            lemma_bump_table_wf(Seq::empty(), part@);
        }
    }

    /// Tries to produce a sentence starting with the given word.
    ///
    /// The starting word is lowercased and seeds the context
    /// `(Word(starting_word), StartOfLine)`. A walk from there samples a
    /// continuation of the current context at each step, stops on an
    /// unknown context, on a sampled non-word part, or by a break chance
    /// that grows by ten percent for every three produced words, and
    /// yields the produced words behind the starting word — or nothing,
    /// where no word could be produced at all.
    pub fn speak(&self, starting_word: &str) -> (r: Option<String>)
        requires
            self.wf(),
        ensures
            ({
                let seed = seeded_pair(lower_seq(starting_word@));
                &&& (!assoc_contains(self@, seed) ==> r is None)
                &&& (match r {
                    Some(s) => exists|ws: Seq<Seq<char>>|
                        {
                            &&& #[trigger] chain_from(self@, seed, ws)
                            &&& 1 <= ws.len() <= 30
                            &&& (ws.len() < 3 ==> walk_blocked(self@, ctx_after(seed, ws)))
                            &&& s@ == lower_seq(starting_word@) + seq![' '] + joined(ws)
                        },
                    None => true,
                })
                &&& (assoc_contains(self@, seed) && table_all_words(
                    self@[assoc_index(self@, seed)].1,
                ) ==> r is Some)
            }),
    {
        let lowered = to_ascii_lower(starting_word);
        let mut pair = SentencePartPair::with_previous_word(lowered.as_str());
        let ghost seed = pair@;
        let mut result = String::new();
        let mut count: usize = 0;
        let ghost mut ws = Seq::<Seq<char>>::empty();
        loop
            invariant_except_break
                count <= 29,
            invariant
                self.wf(),
                seed == seeded_pair(lower_seq(starting_word@)),
                lowered@ == lower_seq(starting_word@),
                pair@ == ctx_after(seed, ws),
                chain_from(self@, seed, ws),
                ws.len() == count,
                result@ == joined(ws),
                count == 0 ==> pair@ == seed && ws == Seq::<Seq<char>>::empty(),
            ensures
                count <= 30,
                count < 3 ==> walk_blocked(self@, ctx_after(seed, ws)),
            decreases 30 - count,
        {
            let table = match self.lookup(&pair) {
                Some(t) => t,
                None => { break },
            };
            proof {
                table.lemma_wf_view();
                lemma_elem_le_sum(table@, 0);
            }
            let total = table.total();
            if total == 0 {
                proof {
                    assert(false);
                }
                break ;
            }
            let idx = draw_below(total);
            proof {
                lemma_selected_in_range(table@, idx as nat);
            }
            let next = match table.get(idx) {
                Some(p) => p,
                None => {
                    proof {
                        assert(false);
                    }
                    break ;
                },
            };
            proof {
                lemma_selected_is_recorded(table@, idx as nat, next@);
            }
            if let SentencePart::Word(w) = next {
                if count > 0 {
                    proof {
                        reveal_strlit(" ");
                        assert(" "@ =~= seq![' ']);
                    }
                    result.append(" ");
                }
                result.append(w.as_str());
                proof {
                    lemma_chain_push(self@, seed, ws, w@);
                    lemma_ctx_after_push(seed, ws, w@);
                    if ws.len() == 0 {
                        assert(joined(seq![w@]) == w@);
                        assert(result@ =~= joined(ws.push(w@)));
                    } else {
                        lemma_joined_push(ws, w@);
                        assert(result@ =~= joined(ws.push(w@)));
                    }
                    ws = ws.push(w@);
                }
                pair.shift(w.as_str());
                count += 1;
                let draw = draw_below(100);
                if break_decision(count, draw) {
                    proof {
                        if count < 3 {
                            assert((count / 3) * 10 == 0);
                            assert(false);
                        }
                    }
                    break ;
                }
                proof {
                    if count >= 30 {
                        assert(count / 3 >= 10);
                        assert((count / 3) * 10 >= 100);
                        assert(false);
                    }
                }
            } else {
                proof {
                    let j = assoc_index(table@, next@);
                    assert(0 <= j < table@.len() && table@[j].0 == next@);
                    assert(!(table@[j].0 is Word));
                    assert(!table_all_words(table@));
                }
                break ;
            }
        }
        if count == 0 {
            proof {
                assert(ctx_after(seed, ws) == seed);
            }
            None
        } else {
            proof {
                assert(ws.len() >= 1);
                assert(assoc_contains(self@, seed));
                reveal_strlit(" ");
                assert(" "@ =~= seq![' ']);
            }
            let mut out = lowered;
            out.append(" ");
            out.append(result.as_str());
            proof {
                assert(out@ == lower_seq(starting_word@) + seq![' '] + joined(ws));
                assert(chain_from(self@, seed, ws));
                assert(1 <= ws.len() <= 30);
                assert(ws.len() < 3 ==> walk_blocked(self@, ctx_after(seed, ws)));
            }
            Some(out)
        }
    }

    /// Learn the given line: every transition the line contributes is
    /// recorded, in order.
    pub fn learn(&mut self, line: &str)
        requires
            old(self).wf(),
        ensures
            final(self).wf(),
            final(self)@ == apply_all(old(self)@, line_transitions(line@)),
    {
        let lowered = to_ascii_lower(line);
        let words = split_words(lowered.as_str());
        let ghost ws = tokens_of(line@);
        proof {
            crate::text::lemma_split_ws_words_nonempty(lowered@);
        }
        let mut pair = SentencePartPair::default();
        let mut k: usize = 0;
        proof {
            assert(ws.skip(0) =~= ws);
        }
        while k < words.len()
            invariant
                self.wf(),
                0 <= k <= words.len(),
                part_nonempty(pair@.prev),
                part_nonempty(pair@.prev_prev),
                crate::text::word_views(words@) == ws,
                forall|j: int| 0 <= j < ws.len() ==> (#[trigger] ws[j]).len() >= 1,
                apply_all(self@, transitions_from(pair@, ws.skip(k as int))) == apply_all(
                    old(self)@,
                    transitions_from(init_pair(), ws),
                ),
            decreases words.len() - k,
        {
            let ghost rest = ws.skip(k as int);
            proof {
                assert(rest[0] == ws[k as int]);
                assert(rest.drop_first() =~= ws.skip(k as int + 1));
            }
            let w = &words[k];
            proof {
                assert(crate::text::word_views(words@)[k as int] == words@[k as int]@);
                assert(w@ == ws[k as int]);
            }
            if pair.is_valid_sentence() {
                let ghost before = self@;
                self.record(&pair, SentencePart::Word(w.clone()));
                proof {
                    let t = (pair@, PartView::Word(w@));
                    assert(transitions_from(pair@, rest) == seq![t] + transitions_from(
                        shifted_pair(pair@, PartView::Word(w@)),
                        rest.drop_first(),
                    ));
                    lemma_apply_all_cons(before, t, transitions_from(
                        shifted_pair(pair@, PartView::Word(w@)),
                        rest.drop_first(),
                    ));
                }
            }
            pair.shift(w.as_str());
            k += 1;
        }
        proof {
            assert(ws.skip(ws.len() as int) =~= Seq::<Seq<char>>::empty());
        }
        if pair.is_valid_sentence() {
            let ghost before = self@;
            self.record(&pair, SentencePart::EndOfLine);
            proof {
                let t = (pair@, PartView::End);
                assert(transitions_from(pair@, Seq::empty()) =~= seq![t]);
                lemma_apply_all_cons(before, t, Seq::empty());
                assert(seq![t].drop_first() =~= Seq::<(PairView, PartView)>::empty());
            }
        }
    }
}

/// Bumping a table keeps it well-formed, keeps its entries at least one,
/// and keeps its words non-empty when the new part is.
pub proof fn lemma_bump_table_wf(s: Seq<(PartView, nat)>, k: PartView)
    requires
        distinct_keys(s),
        part_nonempty(k),
        table_words_nonempty(s),
    ensures
        distinct_keys(bump_table(s, k)),
        table_words_nonempty(bump_table(s, k)),
        crate::words::seq_sum(s) < usize::MAX ==> bump_table(s, k).len() >= 1,
        bump_table(s, k).len() >= s.len(),
{
    let b = bump_table(s, k);
    if crate::words::seq_sum(s) >= usize::MAX {
    } else if assoc_contains(s, k) {
        let i = assoc_index(s, k);
        assert(0 <= i < s.len() && s[i].0 == k);
        assert(forall|j: int| 0 <= j < b.len() ==> (#[trigger] b[j]).0 == s[j].0);
    } else {
        assert(forall|j: int| 0 <= j < s.len() ==> (#[trigger] b[j]) == s[j]);
        assert(forall|j: int| 0 <= j < s.len() ==> (#[trigger] s[j]).0 != k);
    }
}

/// The number of times one transition occurs in a sequence.
pub open spec fn occ(ts: Seq<(PairView, PartView)>, c: PairView, t: PartView) -> nat
    decreases ts.len(),
{
    if ts.len() == 0 {
        0
    } else {
        (if ts[0] == (c, t) {
            1nat
        } else {
            0nat
        }) + occ(ts.drop_first(), c, t)
    }
}

/// The count the model records for following context `c` with part `t`;
/// zero where the context or the part is unknown.
pub open spec fn model_count(m: ModelView, c: PairView, t: PartView) -> nat {
    if assoc_contains(m, c) {
        spec_count(m[assoc_index(m, c)].1, t)
    } else {
        0
    }
}

/// The total weight of a context's table; zero where the context is
/// unknown.
pub open spec fn model_total(m: ModelView, c: PairView) -> nat {
    if assoc_contains(m, c) {
        seq_sum(m[assoc_index(m, c)].1)
    } else {
        0
    }
}

/// Contexts are distinct and so are the keys of every table.
pub open spec fn model_distinct(m: ModelView) -> bool {
    &&& distinct_keys(m)
    &&& (forall|i: int| 0 <= i < m.len() ==> distinct_keys((#[trigger] m[i]).1))
}

/// Whether some transition of the sequence leaves from the given context.
pub open spec fn ts_has_ctx(ts: Seq<(PairView, PartView)>, c: PairView) -> bool {
    exists|i: int| 0 <= i < ts.len() && ts[i].0 == c
}

/// Bumping a table changes exactly the bumped count, by one, as long as
/// the table's total has room.
proof fn lemma_bump_table_count(s: Seq<(PartView, nat)>, k: PartView, k2: PartView)
    requires
        distinct_keys(s),
    ensures
        distinct_keys(bump_table(s, k)),
        spec_count(bump_table(s, k), k2) == spec_count(s, k2) + (if k2 == k && seq_sum(s)
            < usize::MAX {
            1nat
        } else {
            0nat
        }),
        seq_sum(bump_table(s, k)) == seq_sum(s) + (if seq_sum(s) < usize::MAX {
            1nat
        } else {
            0nat
        }),
{
    let b = bump_table(s, k);
    if seq_sum(s) >= usize::MAX {
    } else if assoc_contains(s, k) {
        let i = assoc_index(s, k);
        assert(0 <= i < s.len() && s[i].0 == k);
        assert(forall|j: int| 0 <= j < b.len() ==> (#[trigger] b[j]).0 == s[j].0);
        lemma_seq_sum_update(s, i, (k, (s[i].1 + 1) as nat));
        if k2 == k {
            lemma_assoc_index_unique(s, k, i);
            lemma_assoc_index_unique(b, k, i);
        } else {
            if assoc_contains(s, k2) {
                let j = assoc_index(s, k2);
                assert(0 <= j < s.len() && s[j].0 == k2);
                assert(j != i);
                lemma_assoc_index_unique(b, k2, j);
                assert(b[j] == s[j]);
            } else {
                assert(!assoc_contains(b, k2)) by {
                    if assoc_contains(b, k2) {
                        let j = choose|j: int| 0 <= j < b.len() && b[j].0 == k2;
                        assert(s[j].0 == k2);
                        assert(assoc_contains(s, k2));
                    }
                }
            }
        }
    } else {
        assert forall|j: int| 0 <= j < s.len() implies (#[trigger] s[j]).0 != k by {
            if s[j].0 == k {
                assert(assoc_contains(s, k));
            }
        }
        assert(forall|j: int| 0 <= j < s.len() ==> (#[trigger] b[j]) == s[j]);
        assert(b.last() == (k, 1nat));
        assert(b.drop_last() =~= s);
        assert(seq_sum(b) == seq_sum(s) + 1);
        if k2 == k {
            lemma_assoc_index_unique(b, k, s.len() as int);
            assert(!assoc_contains(s, k2));
        } else {
            if assoc_contains(s, k2) {
                let j = assoc_index(s, k2);
                assert(0 <= j < s.len() && s[j].0 == k2);
                lemma_assoc_index_unique(b, k2, j);
            } else {
                assert(!assoc_contains(b, k2)) by {
                    if assoc_contains(b, k2) {
                        let j = choose|j: int| 0 <= j < b.len() && b[j].0 == k2;
                        assert(j < s.len());
                        assert(s[j].0 == k2);
                        assert(assoc_contains(s, k2));
                    }
                }
            }
        }
    }
}

/// Recording one transition changes exactly its own count, by one, as
/// long as its context's table has room; everything else stays.
proof fn lemma_bump_model_count(m: ModelView, c: PairView, t: PartView, c2: PairView, t2: PartView)
    requires
        model_distinct(m),
    ensures
        model_distinct(bump_model(m, c, t)),
        model_count(bump_model(m, c, t), c2, t2) == model_count(m, c2, t2) + (if c2 == c && t2 == t
            && model_total(m, c) < usize::MAX {
            1nat
        } else {
            0nat
        }),
        model_total(bump_model(m, c, t), c2) == model_total(m, c2) + (if c2 == c && model_total(
            m,
            c,
        ) < usize::MAX {
            1nat
        } else {
            0nat
        }),
        assoc_contains(bump_model(m, c, t), c2) <==> assoc_contains(m, c2) || c2 == c,
{
    let b = bump_model(m, c, t);
    if assoc_contains(m, c) {
        let i = assoc_index(m, c);
        assert(0 <= i < m.len() && m[i].0 == c);
        lemma_bump_table_count(m[i].1, t, t2);
        assert(forall|j: int| 0 <= j < b.len() ==> (#[trigger] b[j]).0 == m[j].0);
        assert(forall|j: int|
            0 <= j < b.len() && j != i ==> (#[trigger] b[j]) == m[j]);
        lemma_assoc_index_unique(m, c, i);
        lemma_assoc_index_unique(b, c, i);
        if c2 == c {
        } else {
            if assoc_contains(m, c2) {
                let j = assoc_index(m, c2);
                assert(0 <= j < m.len() && m[j].0 == c2);
                assert(j != i);
                lemma_assoc_index_unique(b, c2, j);
            } else {
                assert(!assoc_contains(b, c2)) by {
                    if assoc_contains(b, c2) {
                        let j = choose|j: int| 0 <= j < b.len() && b[j].0 == c2;
                        assert(m[j].0 == c2);
                        assert(assoc_contains(m, c2));
                    }
                }
            }
        }
    } else {
        lemma_bump_table_count(Seq::empty(), t, t2);
        assert(seq_sum(Seq::<(PartView, nat)>::empty()) == 0);
        assert forall|j: int| 0 <= j < m.len() implies (#[trigger] m[j]).0 != c by {
            if m[j].0 == c {
                assert(assoc_contains(m, c));
            }
        }
        assert(forall|j: int| 0 <= j < m.len() ==> (#[trigger] b[j]) == m[j]);
        assert(b.last() == (c, bump_table(Seq::empty(), t)));
        if c2 == c {
            lemma_assoc_index_unique(b, c, m.len() as int);
            assert(spec_count(Seq::<(PartView, nat)>::empty(), t2) == 0) by {
                if assoc_contains(Seq::<(PartView, nat)>::empty(), t2) {
                    let j = choose|j: int|
                        0 <= j < Seq::<(PartView, nat)>::empty().len()
                            && Seq::<(PartView, nat)>::empty()[j].0 == t2;
                }
            }
        } else {
            if assoc_contains(m, c2) {
                let j = assoc_index(m, c2);
                assert(0 <= j < m.len() && m[j].0 == c2);
                lemma_assoc_index_unique(b, c2, j);
            } else {
                assert(!assoc_contains(b, c2)) by {
                    if assoc_contains(b, c2) {
                        let j = choose|j: int| 0 <= j < b.len() && b[j].0 == c2;
                        assert(j < m.len());
                        assert(m[j].0 == c2);
                        assert(assoc_contains(m, c2));
                    }
                }
            }
        }
    }
}

/// A context's total weight never shrinks while transitions are
/// recorded, and distinctness is kept.
proof fn lemma_apply_all_mono(m: ModelView, ts: Seq<(PairView, PartView)>, c: PairView)
    requires
        model_distinct(m),
    ensures
        model_distinct(apply_all(m, ts)),
        model_total(apply_all(m, ts), c) >= model_total(m, c),
    decreases ts.len(),
{
    if ts.len() == 0 {
    } else {
        lemma_bump_model_count(m, ts[0].0, ts[0].1, c, PartView::End);
        lemma_apply_all_mono(bump_model(m, ts[0].0, ts[0].1), ts.drop_first(), c);
    }
}

/// Recording a sequence of transitions raises each count by the number
/// of its occurrences in the sequence, as long as the context's table
/// keeps room for them.
pub proof fn lemma_apply_all_count(
    m: ModelView,
    ts: Seq<(PairView, PartView)>,
    c: PairView,
    t: PartView,
)
    requires
        model_distinct(m),
        model_total(apply_all(m, ts), c) < usize::MAX,
    ensures
        model_distinct(apply_all(m, ts)),
        model_count(apply_all(m, ts), c, t) == model_count(m, c, t) + occ(ts, c, t),
    decreases ts.len(),
{
    if ts.len() == 0 {
    } else {
        let m1 = bump_model(m, ts[0].0, ts[0].1);
        lemma_apply_all_mono(m1, ts.drop_first(), c);
        lemma_bump_model_count(m, ts[0].0, ts[0].1, c, t);
        lemma_apply_all_count(m1, ts.drop_first(), c, t);
    }
}

/// A context is known after recording a sequence of transitions exactly
/// when it was known before or some transition leaves from it.
pub proof fn lemma_apply_all_contains(m: ModelView, ts: Seq<(PairView, PartView)>, c: PairView)
    requires
        model_distinct(m),
    ensures
        assoc_contains(apply_all(m, ts), c) <==> (assoc_contains(m, c) || ts_has_ctx(ts, c)),
    decreases ts.len(),
{
    if ts.len() == 0 {
        assert(!ts_has_ctx(ts, c)) by {
            if ts_has_ctx(ts, c) {
                let i = choose|i: int| 0 <= i < ts.len() && ts[i].0 == c;
            }
        }
    } else {
        let m1 = bump_model(m, ts[0].0, ts[0].1);
        lemma_bump_model_count(m, ts[0].0, ts[0].1, c, PartView::End);
        lemma_apply_all_contains(m1, ts.drop_first(), c);
        assert(ts_has_ctx(ts, c) <==> (ts[0].0 == c || ts_has_ctx(ts.drop_first(), c))) by {
            if ts_has_ctx(ts, c) {
                let i = choose|i: int| 0 <= i < ts.len() && ts[i].0 == c;
                if i > 0 {
                    assert(ts.drop_first()[i - 1].0 == c);
                    assert(ts_has_ctx(ts.drop_first(), c));
                }
            }
            if ts[0].0 == c {
                assert(ts_has_ctx(ts, c));
            }
            if ts_has_ctx(ts.drop_first(), c) {
                let i = choose|i: int| 0 <= i < ts.drop_first().len() && ts.drop_first()[i].0 == c;
                assert(ts[i + 1].0 == c);
                assert(ts_has_ctx(ts, c));
            }
        }
    }
}

/// Learning one line and then the same line again doubles the count of
/// every transition the line contributes and adds nothing else: after
/// the first pass each such count has risen by its number of occurrences
/// in the line, after the second pass by twice that, and the set of
/// known contexts does not change in the second pass.
pub proof fn lemma_learn_twice_doubles(m: ModelView, line: Seq<char>, c: PairView, t: PartView)
    requires
        model_distinct(m),
        model_total(
            apply_all(apply_all(m, line_transitions(line)), line_transitions(line)),
            c,
        ) < usize::MAX,
    ensures
        ({
            let ts = line_transitions(line);
            let m1 = apply_all(m, ts);
            let m2 = apply_all(m1, ts);
            &&& model_count(m1, c, t) == model_count(m, c, t) + occ(ts, c, t)
            &&& model_count(m2, c, t) == model_count(m, c, t) + 2 * occ(ts, c, t)
        }),
{
    let ts = line_transitions(line);
    let m1 = apply_all(m, ts);
    lemma_apply_all_mono(m, ts, c);
    lemma_apply_all_mono(m1, ts, c);
    lemma_apply_all_count(m1, ts, c, t);
    lemma_apply_all_count(m, ts, c, t);
}

/// The second pass over the same line visits only contexts the first
/// pass has already created.
pub proof fn lemma_learn_twice_same_contexts(m: ModelView, line: Seq<char>, c: PairView)
    requires
        model_distinct(m),
    ensures
        ({
            let ts = line_transitions(line);
            let m1 = apply_all(m, ts);
            let m2 = apply_all(m1, ts);
            assoc_contains(m2, c) <==> assoc_contains(m1, c)
        }),
{
    let ts = line_transitions(line);
    let m1 = apply_all(m, ts);
    lemma_apply_all_mono(m, ts, c);
    lemma_apply_all_contains(m, ts, c);
    lemma_apply_all_contains(m1, ts, c);
}

/// The view of a well-formed model has distinct contexts and tables.
impl Memory {
    pub proof fn lemma_wf_model(&self)
        requires
            self.wf(),
        ensures
            model_distinct(self@),
    {
        assert forall|i: int| 0 <= i < self@.len() implies distinct_keys(
            (#[trigger] self@[i]).1,
        ) by {
            assert(self@[i] == (self.words@[i].0@, self.words@[i].1@));
            self.words@[i].1.lemma_wf_view();
        }
    }

    /// Everything the view of a well-formed model satisfies, stated over
    /// the view alone.
    pub proof fn lemma_wf_view_facts(&self)
        requires
            self.wf(),
        ensures
            distinct_keys(self@),
            self@.len() <= usize::MAX,
            forall|i: int| 0 <= i < self@.len() ==> table_wf((#[trigger] self@[i]).1),
            forall|i: int| 0 <= i < self@.len() ==> (#[trigger] self@[i]).1.len() >= 1,
            forall|i: int| 0 <= i < self@.len() ==> table_words_nonempty((#[trigger] self@[i]).1),
            forall|i: int|
                0 <= i < self@.len() ==> part_nonempty((#[trigger] self@[i]).0.prev)
                    && part_nonempty(self@[i].0.prev_prev),
    {
        vstd::std_specs::vec::axiom_spec_len(&self.words);
        assert forall|i: int| 0 <= i < self@.len() implies table_wf((#[trigger] self@[i]).1) by {
            assert(self@[i] == (self.words@[i].0@, self.words@[i].1@));
            self.words@[i].1.lemma_wf_view();
        }
    }
}

/// Recording a sequence of transitions one at a time, peeled from the
/// front.
pub proof fn lemma_apply_all_cons(
    m: ModelView,
    t: (PairView, PartView),
    rest: Seq<(PairView, PartView)>,
)
    ensures
        apply_all(m, seq![t] + rest) == apply_all(bump_model(m, t.0, t.1), rest),
{
    let ts = seq![t] + rest;
    assert(ts.len() == 1 + rest.len());
    assert(ts[0] == t);
    assert(ts.drop_first() =~= rest);
}

} // verus!
