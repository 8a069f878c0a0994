//! Sentence parts, two-part contexts, and the frequency table of observed
//! continuations, together with the weighted-selection logic used to draw
//! a continuation at random.

use vstd::prelude::*;

verus! {

/// Mathematical value of a [`SentencePart`]: the word payload is a
/// sequence of characters.
pub enum PartView {
    Start,
    End,
    Word(Seq<char>),
}

/// Mathematical value of a [`SentencePartPair`].
pub struct PairView {
    pub prev: PartView,
    pub prev_prev: PartView,
}

/// A sentence part, which can either be a start-of-line marker, an
/// end-of-line marker, or an actual word.
#[derive(Debug)]
pub enum SentencePart {
    StartOfLine,
    EndOfLine,
    Word(String),
}

impl View for SentencePart {
    type V = PartView;

    open spec fn view(&self) -> PartView {
        match self {
            SentencePart::StartOfLine => PartView::Start,
            SentencePart::EndOfLine => PartView::End,
            SentencePart::Word(w) => PartView::Word(w@),
        }
    }
}

impl SentencePart {
    /// Check if a given part is a `SentencePart::Word`.
    pub fn is_word(&self) -> (r: bool)
        ensures
            r == (self@ is Word),
    {
        match self {
            SentencePart::Word(_) => true,
            _ => false,
        }
    }
}

/// Structural equality of two parts, decided on their views.
pub fn part_eq(a: &SentencePart, b: &SentencePart) -> (r: bool)
    ensures
        r == (a@ == b@),
{
    match (a, b) {
        (SentencePart::StartOfLine, SentencePart::StartOfLine) => true,
        (SentencePart::EndOfLine, SentencePart::EndOfLine) => true,
        (SentencePart::Word(x), SentencePart::Word(y)) => x.eq(y),
        _ => false,
    }
}

/// A deep copy of a part, equal to the original in view.
pub fn clone_part(p: &SentencePart) -> (r: SentencePart)
    ensures
        r@ == p@,
{
    match p {
        SentencePart::StartOfLine => SentencePart::StartOfLine,
        SentencePart::EndOfLine => SentencePart::EndOfLine,
        SentencePart::Word(w) => SentencePart::Word(w.clone()),
    }
}

/// The initial context: two start-of-line markers.
pub open spec fn init_pair() -> PairView {
    PairView { prev: PartView::Start, prev_prev: PartView::Start }
}

/// The context that seeds generation from a single word.
pub open spec fn seeded_pair(w: Seq<char>) -> PairView {
    PairView { prev: PartView::Word(w), prev_prev: PartView::Start }
}

/// Sliding the two-part window forward by one part.
pub open spec fn shifted_pair(p: PairView, new_prev: PartView) -> PairView {
    PairView { prev: new_prev, prev_prev: p.prev }
}

/// An ordered pair of the two most recently seen sentence parts, used as
/// the lookup key of the model; `prev` is the more recent one.
#[derive(Debug)]
pub struct SentencePartPair {
    prev: SentencePart,
    prev_prev: SentencePart,
}

impl View for SentencePartPair {
    type V = PairView;

    closed spec fn view(&self) -> PairView {
        PairView { prev: self.prev@, prev_prev: self.prev_prev@ }
    }
}

impl Default for SentencePartPair {
    /// The initial context `(StartOfLine, StartOfLine)`.
    fn default() -> (r: Self)
        ensures
            r@ == init_pair(),
    {
        SentencePartPair { prev: SentencePart::StartOfLine, prev_prev: SentencePart::StartOfLine }
    }
}

impl SentencePartPair {
    /// Create a pair holding `(Word(s), StartOfLine)`, the seed of generation.
    pub fn with_previous_word(s: &str) -> (r: Self)
        ensures
            r@ == seeded_pair(s@),
    {
        SentencePartPair {
            prev: SentencePart::Word(s.to_owned()),
            prev_prev: SentencePart::StartOfLine,
        }
    }

    /// Whether this pair may stand as the left-hand side of a learned
    /// association: its most recent slot holds an actual word.
    pub fn is_valid_sentence(&self) -> (r: bool)
        ensures
            r == (self@.prev is Word),
    {
        self.prev.is_word()
    }

    /// Shift the pair, so that `(prev, prev_prev)` becomes
    /// `(Word(new_prev), prev)`; the old `prev_prev` gets pushed off.
    pub fn shift(&mut self, new_prev: &str)
        ensures
            final(self)@ == shifted_pair(old(self)@, PartView::Word(new_prev@)),
    {
        self.prev_prev = clone_part(&self.prev);
        self.prev = SentencePart::Word(new_prev.to_owned());
    }
}

impl SentencePartPair {
    /// Build a pair from its two parts, the more recent one first.
    pub(crate) fn from_parts(prev: SentencePart, prev_prev: SentencePart) -> (r: Self)
        ensures
            r@ == (PairView { prev: prev@, prev_prev: prev_prev@ }),
    {
        SentencePartPair { prev, prev_prev }
    }

    /// The more recent part of the pair.
    pub(crate) fn prev_part(&self) -> (r: &SentencePart)
        ensures
            r@ == self@.prev,
    {
        &self.prev
    }

    /// The older part of the pair.
    pub(crate) fn prev_prev_part(&self) -> (r: &SentencePart)
        ensures
            r@ == self@.prev_prev,
    {
        &self.prev_prev
    }
}

/// Structural equality of two pairs, decided on their views.
pub fn pair_eq(a: &SentencePartPair, b: &SentencePartPair) -> (r: bool)
    ensures
        r == (a@ == b@),
{
    part_eq(&a.prev, &b.prev) && part_eq(&a.prev_prev, &b.prev_prev)
}

/// A deep copy of a pair, equal to the original in view.
pub fn clone_pair(p: &SentencePartPair) -> (r: SentencePartPair)
    ensures
        r@ == p@,
{
    SentencePartPair { prev: clone_part(&p.prev), prev_prev: clone_part(&p.prev_prev) }
}

/// No two entries of the association sequence share a key.
pub open spec fn distinct_keys<K, V>(s: Seq<(K, V)>) -> bool {
    forall|i: int, j: int| 0 <= i < j < s.len() ==> s[i].0 != s[j].0
}

/// Whether some entry of the association sequence has the given key.
pub open spec fn assoc_contains<K, V>(s: Seq<(K, V)>, k: K) -> bool {
    exists|i: int| 0 <= i < s.len() && s[i].0 == k
}

/// An index of the entry with the given key, if one exists.
pub open spec fn assoc_index<K, V>(s: Seq<(K, V)>, k: K) -> int {
    choose|i: int| 0 <= i < s.len() && s[i].0 == k
}

/// With distinct keys, the entry found at a matching position is the one
/// the lookup specs speak of.
pub proof fn lemma_assoc_index_unique<K, V>(s: Seq<(K, V)>, k: K, i: int)
    requires
        distinct_keys(s),
        0 <= i < s.len(),
        s[i].0 == k,
    ensures
        assoc_contains(s, k),
        assoc_index(s, k) == i,
{
    assert(assoc_contains(s, k)) by {
        assert(0 <= i < s.len() && s[i].0 == k);
    }
    let w = assoc_index(s, k);
    assert(0 <= w < s.len() && s[w].0 == k);
    if w < i {
        assert(s[w].0 != s[i].0);
    } else if w > i {
        assert(s[i].0 != s[w].0);
    }
}

/// A key that matches no entry is absent.
pub proof fn lemma_assoc_absent<K, V>(s: Seq<(K, V)>, k: K)
    requires
        forall|j: int| 0 <= j < s.len() ==> (#[trigger] s[j]).0 != k,
    ensures
        !assoc_contains(s, k),
{
    if assoc_contains(s, k) {
        let w = choose|w: int| 0 <= w < s.len() && s[w].0 == k;
        assert(s[w].0 != k);
    }
}

/// The sum of all recorded counts of a table.
pub open spec fn seq_sum(s: Seq<(PartView, nat)>) -> nat
    decreases s.len(),
{
    if s.len() == 0 {
        0
    } else {
        seq_sum(s.drop_last()) + s.last().1
    }
}

/// The count a table records for the given part, zero if absent.
pub open spec fn spec_count(s: Seq<(PartView, nat)>, k: PartView) -> nat {
    if assoc_contains(s, k) {
        s[assoc_index(s, k)].1
    } else {
        0
    }
}

/// One observation of `k` recorded into a table: its count rises by one,
/// a missing entry is created with count one, and a table whose total
/// count has reached the machine limit stays as it is.
pub open spec fn bump_table(s: Seq<(PartView, nat)>, k: PartView) -> Seq<(PartView, nat)> {
    if seq_sum(s) >= usize::MAX {
        s
    } else if assoc_contains(s, k) {
        let i = assoc_index(s, k);
        s.update(i, (k, (s[i].1 + 1) as nat))
    } else {
        s.push((k, 1))
    }
}

/// Cumulative-weight selection: scan the entries in order, subtracting
/// each count from `index`, and pick the first entry whose count exceeds
/// what remains of `index`.
pub open spec fn selected(s: Seq<(PartView, nat)>, index: nat) -> Option<PartView>
    decreases s.len(),
{
    if s.len() == 0 {
        None
    } else if index < s[0].1 {
        Some(s[0].0)
    } else {
        selected(s.drop_first(), (index - s[0].1) as nat)
    }
}

/// What the view of every well-formed table satisfies: distinct keys,
/// positive counts, and a total that fits the machine.
pub open spec fn table_wf(s: Seq<(PartView, nat)>) -> bool {
    &&& distinct_keys(s)
    &&& (forall|i: int| 0 <= i < s.len() ==> (#[trigger] s[i]).1 >= 1)
    &&& seq_sum(s) <= usize::MAX
}

/// The mathematical value of a sequence of stored table entries.
pub open spec fn entries_view(s: Seq<(SentencePart, usize)>) -> Seq<(PartView, nat)> {
    s.map_values(|e: (SentencePart, usize)| (e.0@, e.1 as nat))
}

/// Wrapper around an association list from `SentencePart` to a positive
/// count, recording how many times a follow-up part occurred.
#[derive(Debug)]
pub struct NextPartList {
    parts: Vec<(SentencePart, usize)>,
    total: usize,
}

impl View for NextPartList {
    type V = Seq<(PartView, nat)>;

    closed spec fn view(&self) -> Seq<(PartView, nat)> {
        entries_view(self.parts@)
    }
}

impl Default for NextPartList {
    /// An empty table.
    fn default() -> (r: Self)
        ensures
            r@ == Seq::<(PartView, nat)>::empty(),
            r.wf(),
    {
        let r = NextPartList { parts: Vec::new(), total: 0 };
        proof {
            assert(r@ =~= Seq::<(PartView, nat)>::empty());
        }
        r
    }
}

impl NextPartList {
    /// Well-formed: keys are distinct, every stored count is at least one,
    /// and the cached total is the sum of the counts.
    pub closed spec fn wf(&self) -> bool {
        &&& distinct_keys(self@)
        &&& (forall|i: int| 0 <= i < self@.len() ==> (#[trigger] self@[i]).1 >= 1)
        &&& self.total as nat == seq_sum(self@)
    }

    /// The view of a well-formed table is itself well-formed.
    pub proof fn lemma_wf_view(&self)
        requires
            self.wf(),
        ensures
            table_wf(self@),
    {
    }

    /// The number of distinct parts recorded.
    pub fn len(&self) -> (r: usize)
        ensures
            r == self@.len(),
    {
        self.parts.len()
    }

    /// The stored entry at one position.
    pub(crate) fn entry_at(&self, i: usize) -> (e: &(SentencePart, usize))
        requires
            i < self@.len(),
        ensures
            (e.0@, e.1 as nat) == self@[i as int],
    {
        &self.parts[i]
    }

    /// Build a table from checked raw entries and their sum.
    pub(crate) fn assemble(parts: Vec<(SentencePart, usize)>, total: usize) -> (r: NextPartList)
        requires
            total as nat == seq_sum(entries_view(parts@)),
            distinct_keys(entries_view(parts@)),
            forall|i: int|
                0 <= i < entries_view(parts@).len() ==> (#[trigger] entries_view(parts@)[i]).1
                    >= 1,
        ensures
            r@ == entries_view(parts@),
            r.wf(),
    {
        NextPartList { parts, total }
    }

    /// The sum of all recorded counts.
    pub fn total(&self) -> (r: usize)
        requires
            self.wf(),
        ensures
            r as nat == seq_sum(self@),
    {
        self.total
    }

    /// The count recorded for the given part, zero if it was never seen.
    pub fn count_of(&self, part: &SentencePart) -> (r: usize)
        requires
            self.wf(),
        ensures
            r as nat == spec_count(self@, part@),
    {
        let mut i: usize = 0;
        while i < self.parts.len()
            invariant
                self.wf(),
                0 <= i <= self@.len(),
                forall|j: int| 0 <= j < i ==> (#[trigger] self@[j]).0 != part@,
            decreases self@.len() - i,
        {
            let e = &self.parts[i];
            proof {
                assert(self@[i as int] == (self.parts@[i as int].0@, self.parts@[i as int].1 as nat));
            }
            if part_eq(&e.0, part) {
                proof {
                    lemma_assoc_index_unique(self@, part@, i as int);
                }
                return e.1;
            }
            i += 1;
        }
        proof {
            lemma_assoc_absent(self@, part@);
        }
        0
    }

    /// Count a part towards this list. If the part does not exist, it
    /// will be added; once the total count has reached the machine limit,
    /// further observations are dropped.
    pub fn count_part(&mut self, part: SentencePart)
        requires
            old(self).wf(),
        ensures
            final(self).wf(),
            final(self)@ == bump_table(old(self)@, part@),
    {
        if self.total == usize::MAX {
            return ;
        }
        let ghost s0 = old(self)@;
        let mut i: usize = 0;
        while i < self.parts.len()
            invariant
                self.wf(),
                self@ == s0,
                s0 == old(self)@,
                self.total < usize::MAX,
                0 <= i <= self@.len(),
                forall|j: int| 0 <= j < i ==> (#[trigger] self@[j]).0 != part@,
            decreases self@.len() - i,
        {
            let found = {
                let e = &self.parts[i];
                part_eq(&e.0, &part)
            };
            proof {
                assert(self@[i as int] == (self.parts@[i as int].0@, self.parts@[i as int].1 as nat));
            }
            if found {
                proof {
                    lemma_assoc_index_unique(s0, part@, i as int);
                    lemma_elem_le_sum(s0, i as int);
                }
                let c = self.parts[i].1;
                self.parts.set(i, (part, c + 1));
                self.total = self.total + 1;
                proof {
                    assert(self@ =~= s0.update(i as int, (part@, (c + 1) as nat)));
                    lemma_seq_sum_update(s0, i as int, (part@, (c + 1) as nat));
                    assert(seq_sum(s0) < usize::MAX);
                    assert(assoc_index(s0, part@) == i as int);
                    assert(bump_table(s0, part@) == s0.update(
                        i as int,
                        (part@, (s0[i as int].1 + 1) as nat),
                    ));
                    assert(s0[i as int].1 == c as nat);
                    assert(self@ == bump_table(s0, part@));
                }
                return ;
            }
            i += 1;
        }
        proof {
            lemma_assoc_absent(s0, part@);
        }
        self.parts.push((part, 1));
        self.total = self.total + 1;
        proof {
            assert(self@ =~= s0.push((part@, 1nat)));
            assert(self@.drop_last() =~= s0);
            assert(seq_sum(self@) == seq_sum(s0) + 1);
        }
    }

    /// Weighted selection by a caller-supplied draw: with `index` drawn
    /// uniformly from `[0, total)`, each part comes back with probability
    /// proportional to its recorded count. An empty list, or an `index`
    /// at or past the total, yields `None`.
    pub fn get(&self, index: usize) -> (r: Option<&SentencePart>)
        requires
            self.wf(),
        ensures
            match r {
                Some(p) => selected(self@, index as nat) == Some(p@),
                None => selected(self@, index as nat) is None,
            },
    {
        if self.parts.len() == 0 {
            return None;
        }
        let mut rem = index;
        let mut i: usize = 0;
        proof {
            assert(self@.skip(0) =~= self@);
        }
        while i < self.parts.len()
            invariant
                self.wf(),
                0 <= i <= self@.len(),
                selected(self@.skip(i as int), rem as nat) == selected(self@, index as nat),
            decreases self@.len() - i,
        {
            let e = &self.parts[i];
            proof {
                assert(self@[i as int] == (self.parts@[i as int].0@, self.parts@[i as int].1 as nat));
                assert(self@.skip(i as int)[0] == self@[i as int]);
                assert(self@.skip(i as int).len() == self@.len() - i);
            }
            if e.1 > rem {
                proof {
                    assert(self@.skip(i as int)[0].1 > rem as nat);
                    assert(selected(self@.skip(i as int), rem as nat) == Some(
                        self@[i as int].0,
                    ));
                }
                return Some(&e.0);
            }
            proof {
                assert(self@.skip(i as int).drop_first() =~= self@.skip(i as int + 1));
            }
            rem = rem - e.1;
            i += 1;
        }
        proof {
            assert(self@.skip(i as int) =~= Seq::<(PartView, nat)>::empty());
        }
        None
    }
}

/// The sum over a prefix never exceeds the sum over the whole table.
pub proof fn lemma_seq_sum_take_le(s: Seq<(PartView, nat)>, i: int)
    requires
        0 <= i <= s.len(),
    ensures
        seq_sum(s.take(i)) <= seq_sum(s),
    decreases s.len(),
{
    if i == s.len() {
        assert(s.take(i) =~= s);
    } else {
        assert(s.drop_last().take(i) =~= s.take(i));
        lemma_seq_sum_take_le(s.drop_last(), i);
    }
}

/// Every single count is bounded by the sum of all counts.
pub proof fn lemma_elem_le_sum(s: Seq<(PartView, nat)>, i: int)
    requires
        0 <= i < s.len(),
    ensures
        s[i].1 <= seq_sum(s),
    decreases s.len(),
{
    if i == s.len() - 1 {
    } else {
        lemma_elem_le_sum(s.drop_last(), i);
    }
}

/// Updating one entry changes the sum by the difference of the counts.
pub proof fn lemma_seq_sum_update(s: Seq<(PartView, nat)>, i: int, e: (PartView, nat))
    requires
        0 <= i < s.len(),
    ensures
        seq_sum(s.update(i, e)) + s[i].1 == seq_sum(s) + e.1,
    decreases s.len(),
{
    if i == s.len() - 1 {
        assert(s.update(i, e).drop_last() =~= s.drop_last());
    } else {
        assert(s.update(i, e).drop_last() =~= s.drop_last().update(i, e));
        lemma_seq_sum_update(s.drop_last(), i, e);
    }
}

/// Cumulative-weight selection hits an entry exactly when the drawn
/// index lies below the sum of all counts.
pub proof fn lemma_selected_in_range(s: Seq<(PartView, nat)>, index: nat)
    ensures
        (selected(s, index) is Some) <==> index < seq_sum(s),
    decreases s.len(),
{
    lemma_seq_sum_first(s);
    if s.len() == 0 {
    } else if index < s[0].1 {
    } else {
        lemma_selected_in_range(s.drop_first(), (index - s[0].1) as nat);
    }
}

/// The sum can also be peeled off at the front.
pub proof fn lemma_seq_sum_first(s: Seq<(PartView, nat)>)
    ensures
        s.len() > 0 ==> seq_sum(s) == s[0].1 + seq_sum(s.drop_first()),
    decreases s.len(),
{
    if s.len() == 1 {
        assert(s.drop_first() =~= Seq::<(PartView, nat)>::empty());
        assert(s.drop_last() =~= Seq::<(PartView, nat)>::empty());
        assert(seq_sum(s.drop_last()) == 0);
        assert(seq_sum(s.drop_first()) == 0);
        assert(s.last() == s[0]);
        assert(seq_sum(s) == s.last().1);
    } else if s.len() > 1 {
        lemma_seq_sum_first(s.drop_last());
        assert(seq_sum(s) == seq_sum(s.drop_last()) + s.last().1);
        assert(s.drop_last()[0] == s[0]);
        assert(seq_sum(s.drop_last()) == s[0].1 + seq_sum(s.drop_last().drop_first()));
        assert(s.drop_last().drop_first() =~= s.drop_first().drop_last());
        assert(seq_sum(s.drop_last().drop_first()) == seq_sum(s.drop_first().drop_last()));
        assert(s.drop_first().last() == s.last());
        assert(seq_sum(s.drop_first()) == seq_sum(s.drop_first().drop_last())
            + s.drop_first().last().1);
        assert(seq_sum(s) == s[0].1 + seq_sum(s.drop_first()));
    }
}

/// The number of draw indexes below `n` that select the given part.
pub open spec fn hits(s: Seq<(PartView, nat)>, t: PartView, n: nat) -> nat
    decreases n,
{
    if n == 0 {
        0
    } else {
        hits(s, t, (n - 1) as nat) + (if selected(s, (n - 1) as nat) == Some(t) {
            1nat
        } else {
            0nat
        })
    }
}

/// Below the first count, every draw selects the first part.
proof fn lemma_hits_head(s: Seq<(PartView, nat)>, t: PartView, n: nat)
    requires
        s.len() >= 1,
        n <= s[0].1,
    ensures
        hits(s, t, n) == (if s[0].0 == t {
            n
        } else {
            0nat
        }),
    decreases n,
{
    if n > 0 {
        lemma_hits_head(s, t, (n - 1) as nat);
        assert(selected(s, (n - 1) as nat) == Some(s[0].0));
    }
}

/// Past the first count, the remaining draws select within the rest.
proof fn lemma_hits_split(s: Seq<(PartView, nat)>, t: PartView, n: nat)
    requires
        s.len() >= 1,
        n >= s[0].1,
    ensures
        hits(s, t, n) == (if s[0].0 == t {
            s[0].1
        } else {
            0nat
        }) + hits(s.drop_first(), t, (n - s[0].1) as nat),
    decreases n,
{
    if n == s[0].1 {
        lemma_hits_head(s, t, n);
    } else {
        lemma_hits_split(s, t, (n - 1) as nat);
        assert(selected(s, (n - 1) as nat) == selected(s.drop_first(), (n - 1 - s[0].1) as nat));
    }
}

/// The count of a table decomposes at its first entry when keys are
/// distinct.
proof fn lemma_spec_count_decompose(s: Seq<(PartView, nat)>, t: PartView)
    requires
        distinct_keys(s),
        s.len() >= 1,
    ensures
        spec_count(s, t) == (if s[0].0 == t {
            s[0].1
        } else {
            0nat
        }) + spec_count(s.drop_first(), t),
{
    let d = s.drop_first();
    if s[0].0 == t {
        lemma_assoc_index_unique(s, t, 0);
        assert forall|j: int| 0 <= j < d.len() implies (#[trigger] d[j]).0 != t by {
            assert(d[j] == s[j + 1]);
            assert(s[0].0 != s[j + 1].0);
        }
        lemma_assoc_absent(d, t);
    } else {
        if assoc_contains(d, t) {
            let j = choose|j: int| 0 <= j < d.len() && d[j].0 == t;
            assert(d[j] == s[j + 1]);
            assert forall|a: int, b: int| 0 <= a < b < d.len() implies (#[trigger] d[a]).0 != (
            #[trigger] d[b]).0 by {
                assert(d[a] == s[a + 1]);
                assert(d[b] == s[b + 1]);
            }
            lemma_assoc_index_unique(d, t, j);
            lemma_assoc_index_unique(s, t, j + 1);
        } else {
            if assoc_contains(s, t) {
                let w = choose|w: int| 0 <= w < s.len() && s[w].0 == t;
                assert(w != 0);
                assert(d[w - 1] == s[w]);
                assert(assoc_contains(d, t));
            }
        }
    }
}

/// Cumulative-weight selection is fair: of the `seq_sum(s)` possible
/// draw indexes, exactly `spec_count(s, t)` select the part `t` — with a
/// uniform draw, each part comes back with probability proportional to
/// its recorded count, whatever order the entries stand in.
pub proof fn lemma_selection_is_fair(s: Seq<(PartView, nat)>, t: PartView)
    requires
        distinct_keys(s),
    ensures
        hits(s, t, seq_sum(s)) == spec_count(s, t),
    decreases s.len(),
{
    if s.len() == 0 {
        if assoc_contains(s, t) {
            let w = choose|w: int| 0 <= w < s.len() && s[w].0 == t;
        }
    } else {
        let d = s.drop_first();
        lemma_seq_sum_first(s);
        lemma_hits_split(s, t, seq_sum(s));
        assert forall|a: int, b: int| 0 <= a < b < d.len() implies (#[trigger] d[a]).0 != (
        #[trigger] d[b]).0 by {
            assert(d[a] == s[a + 1]);
            assert(d[b] == s[b + 1]);
        }
        lemma_selection_is_fair(d, t);
        lemma_spec_count_decompose(s, t);
    }
}

/// Whatever cumulative-weight selection returns is recorded in the table.
pub proof fn lemma_selected_is_recorded(s: Seq<(PartView, nat)>, index: nat, p: PartView)
    requires
        selected(s, index) == Some(p),
    ensures
        assoc_contains(s, p),
    decreases s.len(),
{
    if s.len() == 0 {
    } else if index < s[0].1 {
        assert(s[0].0 == p);
    } else {
        lemma_selected_is_recorded(s.drop_first(), (index - s[0].1) as nat, p);
        let w = choose|i: int| 0 <= i < s.drop_first().len() && s.drop_first()[i].0 == p;
        assert(s[w + 1].0 == p);
    }
}

} // verus!
