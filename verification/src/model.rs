//! The Markov model: the training accumulator, the compiled chain with its
//! weighted samplers, and bounded rejection sampling of new words.

use crate::assoc::keys_distinct;
use crate::assoc::lemma_map_of_contains;
use crate::assoc::lemma_map_of_index;
use crate::assoc::lemma_map_of_push;
use crate::assoc::lemma_map_of_update;
use crate::assoc::map_of;
use crate::symbol::ctx_wf;
use crate::symbol::next_sym_ok;
use crate::symbol::padded;
use crate::symbol::walk_prefix;
use crate::symbol::sym_rank;
use crate::symbol::sym_rank_val;
use crate::symbol::lemma_sym_rank_injective;
use crate::symbol::Context;
use crate::symbol::Symbol;
use crate::assoc::sum_u32;
use crate::assoc::lemma_sum_take_succ;
use crate::assoc::lemma_sum_take_le;
use crate::assoc::lemma_sum_lower_bound;
use crate::trusted::build_walker;
use crate::trusted::push_char;
use crate::trusted::walker_next;
use crate::trusted::walker_size;
use rand::rngs::StdRng;
use weighted_rand::table::WalkerTable;
use vstd::prelude::*;
use vstd::seq_lib::commutative_foldl;
use vstd::seq_lib::lemma_fold_left_permutation;
use vstd::string::*;

verus! {

/// The transition frequency table a training run denotes: each observed
/// context maps each observed next symbol to its occurrence count.
pub type FreqMap = Map<Context, Map<Symbol, u32>>;

/// One more observed occurrence; counts saturate at the u32 maximum.
pub open spec fn sat_inc(c: u32) -> u32 {
    if c < u32::MAX {
        (c + 1) as u32
    } else {
        c
    }
}

/// Record one occurrence of `s` after context `k`.
pub open spec fn bump(t: FreqMap, k: Context, s: Symbol) -> FreqMap {
    let inner = if t.contains_key(k) {
        t[k]
    } else {
        Map::empty()
    };
    let c = if inner.contains_key(s) {
        inner[s]
    } else {
        0u32
    };
    t.insert(k, inner.insert(s, sat_inc(c)))
}

/// Record every window of the padded sequence `p` from window `i` onward.
pub open spec fn feed_windows(t: FreqMap, p: Seq<Symbol>, i: int) -> FreqMap
    decreases p.len() - i,
{
    if i < 0 || i + 3 > p.len() {
        t
    } else {
        feed_windows(bump(t, Context { fst: p[i], snd: p[i + 1] }, p[i + 2]), p, i + 1)
    }
}

/// The table after feeding one word: every three-symbol window of the
/// padded word is recorded once.
pub open spec fn feed_word_spec(t: FreqMap, w: Seq<char>) -> FreqMap {
    feed_windows(t, padded(w), 0)
}

/// The table after feeding a sequence of words in order.
pub open spec fn feed_all(t: FreqMap, ws: Seq<Seq<char>>) -> FreqMap
    decreases ws.len(),
{
    if ws.len() == 0 {
        t
    } else {
        feed_word_spec(feed_all(t, ws.drop_last()), ws.last())
    }
}

/// Whether the table records symbol `s` after context `k`.
pub open spec fn has_transition(t: FreqMap, k: Context, s: Symbol) -> bool {
    t.contains_key(k) && t[k].contains_key(s)
}

/// The reachability invariant of a frequency table: if any context is
/// recorded then the start context is, and every recorded letter
/// transition leads to a context the table also records. A walk that
/// begins at the start context of such a table only ever visits recorded
/// contexts. Training establishes this (each window's successor context
/// is the next window's context, which the same feed records), and
/// compilation carries it over; a decoded chain need not have it.
pub open spec fn closed_table(t: FreqMap) -> bool {
    &&& (exists|k: Context| t.contains_key(k)) ==> t.contains_key(
        Context { fst: Symbol::Start, snd: Symbol::Start },
    )
    &&& forall|k: Context, c: char|
        #[trigger] has_transition(t, k, Symbol::Letter(c)) ==> t.contains_key(
            Context { fst: k.snd, snd: Symbol::Letter(c) },
        )
}

/// What a run of windows does to the table: the domain only grows, every
/// processed window's context is recorded, and every recorded transition
/// was already there or is one of the processed windows.
proof fn lemma_feed_windows_props(t: FreqMap, p: Seq<Symbol>, i: int)
    requires
        0 <= i,
    ensures
        forall|k: Context|
            t.contains_key(k) ==> #[trigger] feed_windows(t, p, i).contains_key(k),
        forall|j: int|
            i <= j && j + 2 < p.len() ==> feed_windows(t, p, i).contains_key(
                Context { fst: p[j], snd: #[trigger] p[j + 1] },
            ),
        forall|k: Context, s: Symbol|
            #[trigger] has_transition(feed_windows(t, p, i), k, s) ==> has_transition(t, k, s)
                || exists|j: int|
                i <= j && j + 2 < p.len() && (#[trigger] p[j]) == k.fst && p[j + 1] == k.snd && p[j
                    + 2] == s,
    decreases p.len() - i,
{
    if i + 3 > p.len() {
    } else {
        let k0 = Context { fst: p[i], snd: p[i + 1] };
        let s0 = p[i + 2];
        let b = bump(t, k0, s0);
        let r = feed_windows(t, p, i);
        lemma_feed_windows_props(b, p, i + 1);
        assert(r == feed_windows(b, p, i + 1));
        assert forall|k: Context| t.contains_key(k) implies #[trigger] r.contains_key(k) by {
            assert(b.contains_key(k));
            assert(feed_windows(b, p, i + 1).contains_key(k));
        }
        assert forall|j: int| i <= j && j + 2 < p.len() implies r.contains_key(
            Context { fst: p[j], snd: #[trigger] p[j + 1] },
        ) by {
            if j == i {
                assert(b.contains_key(k0));
                assert(feed_windows(b, p, i + 1).contains_key(k0));
            } else {
                assert(feed_windows(b, p, i + 1).contains_key(
                    Context { fst: p[j], snd: p[j + 1] },
                ));
            }
        }
        assert forall|k: Context, s: Symbol| #[trigger] has_transition(r, k, s) implies
            has_transition(t, k, s) || exists|j: int|
            i <= j && j + 2 < p.len() && (#[trigger] p[j]) == k.fst && p[j + 1] == k.snd && p[j
                + 2] == s by {
            if has_transition(b, k, s) {
                if k == k0 && s == s0 {
                    assert(i <= i && i + 2 < p.len() && p[i] == k.fst && p[i + 1] == k.snd && p[i
                        + 2] == s);
                } else if !has_transition(t, k, s) {
                    // the bump touched only (k0, s0)
                    assert(k == k0);
                    assert(b[k0].contains_key(s));
                    assert(s == s0);
                }
            } else {
                let j = choose|j: int|
                    i + 1 <= j && j + 2 < p.len() && (#[trigger] p[j]) == k.fst && p[j + 1]
                        == k.snd && p[j + 2] == s;
                assert(i <= j && j + 2 < p.len() && p[j] == k.fst && p[j + 1] == k.snd && p[j + 2]
                    == s);
            }
        }
    }
}

/// Every feed records the start context: the first window always exists.
pub proof fn lemma_feed_word_start(t: FreqMap, w: Seq<char>)
    ensures
        feed_word_spec(t, w).contains_key(Context { fst: Symbol::Start, snd: Symbol::Start }),
{
    let p = padded(w);
    lemma_feed_windows_props(t, p, 0);
    assert(p[0] == Symbol::Start);
    assert(p[1] == Symbol::Start);
    assert(feed_word_spec(t, w).contains_key(Context { fst: p[0], snd: p[1] }));
}

/// Feeding preserves the reachability invariant: each window's successor
/// context is the next window's context, which the same feed records.
/// Feeding never removes a context.
proof fn lemma_feed_word_monotone(t: FreqMap, w: Seq<char>, k: Context)
    requires
        t.contains_key(k),
    ensures
        feed_word_spec(t, w).contains_key(k),
{
    lemma_feed_windows_props(t, padded(w), 0);
}

/// One recorded letter transition of a fed table either was in the old
/// table or is a window of the fed word, whose successor context the same
/// feed records.
proof fn lemma_feed_word_successor(t: FreqMap, w: Seq<char>, k: Context, c: char)
    requires
        has_transition(feed_word_spec(t, w), k, Symbol::Letter(c)),
    ensures
        has_transition(t, k, Symbol::Letter(c)) || feed_word_spec(t, w).contains_key(
            Context { fst: k.snd, snd: Symbol::Letter(c) },
        ),
{
    let p = padded(w);
    let r = feed_word_spec(t, w);
    lemma_feed_windows_props(t, p, 0);
    if !has_transition(t, k, Symbol::Letter(c)) {
        let j = choose|j: int|
            0 <= j && j + 2 < p.len() && (#[trigger] p[j]) == k.fst && p[j + 1] == k.snd && p[j
                + 2] == Symbol::Letter(c);
        // a letter target cannot be the closing end boundary, so the next
        // window exists and its context is the successor
        assert(p[p.len() - 1] == Symbol::End);
        assert(j + 2 < p.len() - 1);
        let jn = j + 1;
        assert(jn + 2 < p.len());
        assert(r.contains_key(Context { fst: p[jn], snd: p[jn + 1] }));
        assert(p[jn] == k.snd && p[jn + 1] == Symbol::Letter(c));
    }
}

/// Feeding preserves the reachability invariant: each window's successor
/// context is the next window's context, which the same feed records.
pub proof fn lemma_feed_word_closed(t: FreqMap, w: Seq<char>)
    requires
        closed_table(t),
    ensures
        closed_table(feed_word_spec(t, w)),
{
    let r = feed_word_spec(t, w);
    lemma_feed_word_start(t, w);
    assert forall|k: Context, c: char| #[trigger] has_transition(
        r,
        k,
        Symbol::Letter(c),
    ) implies r.contains_key(Context { fst: k.snd, snd: Symbol::Letter(c) }) by {
        lemma_feed_word_successor(t, w, k, c);
        if has_transition(t, k, Symbol::Letter(c)) {
            assert(t.contains_key(Context { fst: k.snd, snd: Symbol::Letter(c) }));
            lemma_feed_word_monotone(t, w, Context { fst: k.snd, snd: Symbol::Letter(c) });
        }
    }
}

/// Well-formedness of one transition entry over plain sequences: an
/// observable context, at least one next symbol, distinct next symbols,
/// every count positive, every next symbol observable.
pub open spec fn entry_wf(k: Context, ps: Seq<(Symbol, u32)>) -> bool {
    &&& ctx_wf(k)
    &&& ps.len() > 0
    &&& keys_distinct(ps)
    &&& forall|j: int| 0 <= j < ps.len() ==> (#[trigger] ps[j]).1 >= 1 && next_sym_ok(ps[j].0)
}

/// Well-formedness of a whole transition listing and word listing:
/// distinct contexts, well-formed entries, distinct words.
pub open spec fn listing_wf(es: Seq<(Context, Seq<(Symbol, u32)>)>, ws: Seq<Seq<char>>) -> bool {
    &&& keys_distinct(es)
    &&& forall|i: int| 0 <= i < es.len() ==> entry_wf((#[trigger] es[i]).0, es[i].1)
    &&& forall|i: int, j: int| 0 <= i < j < ws.len() ==> ws[i] != ws[j]
}

/// A transition listing with each entry's pairs turned into a map.
pub open spec fn mapped_entries(es: Seq<(Context, Seq<(Symbol, u32)>)>) -> Seq<
    (Context, Map<Symbol, u32>),
> {
    Seq::new(es.len(), |i: int| (es[i].0, map_of(es[i].1)))
}

/// The map denoted by a transition listing.
pub open spec fn table_of(es: Seq<(Context, Seq<(Symbol, u32)>)>) -> FreqMap {
    map_of(mapped_entries(es))
}

/// The training accumulator: transition counts, and the set of words fed.
pub struct CharCounter {
    pub(crate) counts: Vec<(Context, Vec<(Symbol, u32)>)>,
    pub(crate) words: Vec<String>,
}

impl CharCounter {
    /// The transition entries, as sequences of pairs, in first-observed order.
    pub closed spec fn entries(&self) -> Seq<(Context, Seq<(Symbol, u32)>)> {
        Seq::new(self.counts@.len(), |i: int| (self.counts@[i].0, self.counts@[i].1@))
    }

    /// The frequency table this accumulator denotes.
    pub open spec fn table(&self) -> FreqMap {
        table_of(self.entries())
    }

    /// The words fed so far, in first-fed order, without repetitions.
    pub closed spec fn word_seq(&self) -> Seq<Seq<char>> {
        Seq::new(self.words@.len(), |i: int| self.words@[i]@)
    }

    /// The set of distinct words fed so far.
    pub open spec fn word_set(&self) -> Set<Seq<char>> {
        self.word_seq().to_set()
    }

    pub open spec fn wf(&self) -> bool {
        listing_wf(self.entries(), self.word_seq())
    }

    /// A fresh accumulator: no observations, no words. Its empty table
    /// trivially has the reachability invariant, which every feed keeps.
    pub fn new() -> (r: Self)
        ensures
            r.wf(),
            r.table() == Map::<Context, Map<Symbol, u32>>::empty(),
            r.word_seq() == Seq::<Seq<char>>::empty(),
            closed_table(r.table()),
    {
        let r = CharCounter { counts: Vec::new(), words: Vec::new() };
        proof {
            assert(r.entries() =~= Seq::<(Context, Seq<(Symbol, u32)>)>::empty());
            assert(r.word_seq() =~= Seq::<Seq<char>>::empty());
            assert(r.table() =~= Map::<Context, Map<Symbol, u32>>::empty());
            assert(closed_table(r.table()));
        }
        r
    }

    /// Whether every context's counts are small enough for the sampler
    /// builder's u32 arithmetic, so that the accumulator can be compiled.
    pub open spec fn fits_sampler(&self) -> bool {
        forall|i: int|
            0 <= i < self.entries().len() ==> entry_fits((#[trigger] self.entries()[i]).1)
    }

    /// Check executably whether this accumulator can be compiled.
    pub fn within_sampler_limit(&self) -> (r: bool)
        requires
            self.wf(),
        ensures
            r == self.fits_sampler(),
    {
        let n = self.counts.len();
        let mut i: usize = 0;
        while i < n
            invariant
                self.wf(),
                n == self.counts@.len(),
                i <= n,
                forall|l: int| 0 <= l < i ==> entry_fits((#[trigger] self.entries()[l]).1),
            decreases n - i,
        {
            proof {
                assert(entry_wf(self.entries()[i as int].0, self.entries()[i as int].1));
            }
            if !entry_within_limit(&self.counts[i].1) {
                return false;
            }
            i += 1;
        }
        true
    }

    /// The index of the entry for context `k`, if one exists.
    fn find_ctx(&self, k: &Context) -> (r: Option<usize>)
        ensures
            match r {
                Some(i) => i < self.entries().len() && self.entries()[i as int].0 == *k,
                None => forall|i: int|
                    0 <= i < self.entries().len() ==> (#[trigger] self.entries()[i]).0 != *k,
            },
    {
        let n = self.counts.len();
        let mut i: usize = 0;
        while i < n
            invariant
                n == self.counts.len(),
                i <= n,
                forall|j: int| 0 <= j < i ==> (#[trigger] self.entries()[j]).0 != *k,
            decreases n - i,
        {
            if self.counts[i].0 == *k {
                return Some(i);
            }
            i += 1;
        }
        None
    }

    /// Record one occurrence of `s` after context `k`.
    fn increment(&mut self, k: Context, s: Symbol)
        requires
            old(self).wf(),
            ctx_wf(k),
            next_sym_ok(s),
        ensures
            final(self).wf(),
            final(self).table() == bump(old(self).table(), k, s),
            final(self).word_seq() == old(self).word_seq(),
    {
        let ghost es0 = self.entries();
        let ghost mapped0 = mapped_entries(es0);
        proof {
            assert(keys_distinct(mapped0));
        }
        match self.find_ctx(&k) {
            None => {
                proof {
                    lemma_map_of_contains(mapped0, k);
                    assert(!old(self).table().contains_key(k)) by {
                        assert(forall|i: int|
                            0 <= i < mapped0.len() ==> (#[trigger] mapped0[i]).0 != k);
                    }
                }
                let mut inner: Vec<(Symbol, u32)> = Vec::new();
                inner.push((s, 1));
                self.counts.push((k, inner));
                proof {
                    let es1 = self.entries();
                    assert(es1 =~= es0.push((k, seq![(s, 1u32)])));
                    let mapped1 = mapped_entries(es1);
                    assert(mapped1 =~= mapped0.push((k, map_of(seq![(s, 1u32)]))));
                    lemma_map_of_push(mapped0, k, map_of(seq![(s, 1u32)]));
                    assert(map_of(seq![(s, 1u32)]) =~= Map::<Symbol, u32>::empty().insert(s, 1)) by {
                        lemma_map_of_push(Seq::<(Symbol, u32)>::empty(), s, 1u32);
                        assert(Seq::<(Symbol, u32)>::empty().push((s, 1u32)) =~= seq![(s, 1u32)]);
                        assert(map_of(Seq::<(Symbol, u32)>::empty())
                            =~= Map::<Symbol, u32>::empty());
                    }
                    assert(self.table() =~= bump(old(self).table(), k, s));
                    assert(self.word_seq() =~= old(self).word_seq());
                    assert(self.wf()) by {
                        assert(entry_wf(k, seq![(s, 1u32)]));
                        assert(forall|i: int|
                            0 <= i < es0.len() ==> es1[i] == #[trigger] es0[i]);
                    }
                }
            },
            Some(i) => {
                let ghost inner0 = es0[i as int].1;
                proof {
                    lemma_map_of_index(mapped0, i as int);
                    assert(old(self).table()[k] == map_of(inner0));
                }
                match find_sym(&self.counts[i].1, &s) {
                    None => {
                        proof {
                            lemma_map_of_contains(inner0, s);
                        }
                        self.counts[i].1.push((s, 1));
                        proof {
                            let es1 = self.entries();
                            assert(es1 =~= es0.update(i as int, (k, inner0.push((s, 1u32)))));
                            let mapped1 = mapped_entries(es1);
                            assert(mapped1 =~= mapped0.update(
                                i as int,
                                (k, map_of(inner0.push((s, 1u32)))),
                            ));
                            lemma_map_of_push(inner0, s, 1u32);
                            lemma_map_of_update(mapped0, i as int, map_of(inner0.push((s, 1u32))));
                            assert(self.table() =~= bump(old(self).table(), k, s));
                            assert(self.word_seq() =~= old(self).word_seq());
                            assert(self.wf()) by {
                                assert(entry_wf(k, inner0.push((s, 1u32)))) by {
                                    assert(forall|j: int|
                                        0 <= j < inner0.len()
                                            ==> inner0.push((s, 1u32))[j] == #[trigger] inner0[j]);
                                }
                                assert(forall|j: int|
                                    0 <= j < es1.len() && j != i
                                        ==> es1[j] == #[trigger] es0[j]);
                            }
                        }
                    },
                    Some(j) => {
                        let c = self.counts[i].1[j].1;
                        let nc = if c < u32::MAX {
                            c + 1
                        } else {
                            c
                        };
                        let ghost s_at_j = inner0[j as int].0;
                        self.counts[i].1[j] = (s, nc);
                        proof {
                            lemma_map_of_index(inner0, j as int);
                            assert(s_at_j == s);
                            assert(nc == sat_inc(map_of(inner0)[s]));
                            let es1 = self.entries();
                            assert(es1 =~= es0.update(i as int, (k, inner0.update(j as int, (s, nc)))));
                            let mapped1 = mapped_entries(es1);
                            assert(mapped1 =~= mapped0.update(
                                i as int,
                                (k, map_of(inner0.update(j as int, (s, nc)))),
                            ));
                            lemma_map_of_update(inner0, j as int, nc);
                            lemma_map_of_update(mapped0, i as int, map_of(inner0).insert(s, nc));
                            assert(self.table() =~= bump(old(self).table(), k, s));
                            assert(self.word_seq() =~= old(self).word_seq());
                            assert(self.wf()) by {
                                assert(entry_wf(k, inner0.update(j as int, (s, nc)))) by {
                                    assert(forall|l: int|
                                        0 <= l < inner0.len() && l != j
                                            ==> inner0.update(j as int, (s, nc))[l]
                                                == #[trigger] inner0[l]);
                                }
                                assert(forall|l: int|
                                    0 <= l < es1.len() && l != i
                                        ==> es1[l] == #[trigger] es0[l]);
                            }
                        }
                    },
                }
            },
        }
    }

    /// Whether the given word was fed before.
    fn has_word(&self, w: &String) -> (r: bool)
        ensures
            r == self.word_set().contains(w@),
    {
        let n = self.words.len();
        let mut i: usize = 0;
        while i < n
            invariant
                n == self.words.len(),
                i <= n,
                forall|j: int| 0 <= j < i ==> self.word_seq()[j] != w@,
            decreases n - i,
        {
            if self.words[i] == *w {
                proof {
                    assert(self.word_seq()[i as int] == w@);
                    assert(self.word_seq().contains(w@));
                }
                return true;
            }
            i += 1;
        }
        proof {
            assert(!self.word_seq().contains(w@));
        }
        false
    }

    /// Feed one training word: record every three-symbol window of the
    /// padded word, then add the word itself to the known-word set.
    pub fn feed_word(&mut self, word: &str)
        requires
            old(self).wf(),
            word@.len() > 0,
        ensures
            final(self).wf(),
            final(self).table() == feed_word_spec(old(self).table(), word@),
            final(self).word_set() == old(self).word_set().insert(word@),
            final(self).word_seq() == if old(self).word_set().contains(word@) {
                old(self).word_seq()
            } else {
                old(self).word_seq().push(word@)
            },
            final(self).table().contains_key(Context { fst: Symbol::Start, snd: Symbol::Start }),
            closed_table(old(self).table()) ==> closed_table(final(self).table()),
    {
        let n_chars = word.unicode_len();
        let mut syms: Vec<Symbol> = Vec::new();
        syms.push(Symbol::Start);
        syms.push(Symbol::Start);
        proof {
            assert(syms@ =~= walk_prefix(word@.take(0)));
        }
        let mut ci: usize = 0;
        while ci < n_chars
            invariant
                n_chars == word@.len(),
                ci <= n_chars,
                syms@ == walk_prefix(word@.take(ci as int)),
            decreases n_chars - ci,
        {
            syms.push(Symbol::Letter(word.get_char(ci)));
            ci += 1;
            proof {
                assert(syms@ =~= walk_prefix(word@.take(ci as int)));
            }
        }
        syms.push(Symbol::End);
        proof {
            assert(word@.take(n_chars as int) =~= word@);
            assert(syms@ =~= padded(word@));
        }
        let m = syms.len();
        let mut i: usize = 0;
        while i + 2 < m
            invariant
                m == syms@.len(),
                syms@ == padded(word@),
                i + 2 <= m,
                self.wf(),
                self.word_seq() == old(self).word_seq(),
                feed_windows(self.table(), syms@, i as int) == feed_windows(
                    old(self).table(),
                    syms@,
                    0,
                ),
            decreases m - i,
        {
            let k = Context { fst: syms[i], snd: syms[i + 1] };
            let s = syms[i + 2];
            proof {
                let p = padded(word@);
                assert(p[i as int] == syms@[i as int]);
                assert(ctx_wf(k) && next_sym_ok(s)) by {
                    lemma_padded_shape(word@, i as int);
                }
            }
            let ghost table_before = self.table();
            self.increment(k, s);
            i += 1;
            proof {
                assert(feed_windows(table_before, syms@, i - 1) == feed_windows(
                    bump(table_before, k, s),
                    syms@,
                    i as int,
                ));
            }
        }
        proof {
            assert(feed_windows(self.table(), syms@, i as int) == self.table());
            assert(self.table() == feed_word_spec(old(self).table(), word@));
        }
        let w_owned = word.to_owned();
        if !self.has_word(&w_owned) {
            let ghost ws0 = self.word_seq();
            self.words.push(w_owned);
            proof {
                assert(self.word_seq() =~= ws0.push(word@));
                assert(self.wf()) by {
                    assert(forall|j: int|
                        0 <= j < ws0.len() ==> self.word_seq()[j] == #[trigger] ws0[j]);
                    assert(!ws0.contains(word@));
                    assert(forall|j: int|
                        0 <= j < ws0.len() ==> self.word_seq()[ws0.len() as int] != #[trigger] self.word_seq()[j]);
                }
                ws0.lemma_push_to_set_commute(word@);
            }
        } else {
            proof {
                assert(self.word_set() =~= old(self).word_set().insert(word@));
            }
        }
        proof {
            lemma_feed_word_start(old(self).table(), word@);
            if closed_table(old(self).table()) {
                lemma_feed_word_closed(old(self).table(), word@);
            }
        }
    }
}

impl Default for CharCounter {
    /// The same empty accumulator `new` builds.
    fn default() -> (r: Self)
        ensures
            r.wf(),
            r.table() == Map::<Context, Map<Symbol, u32>>::empty(),
            r.word_seq() == Seq::<Seq<char>>::empty(),
            closed_table(r.table()),
    {
        Self::new()
    }
}

/// The index of the pair for symbol `s` in a transition listing, if any.
pub(crate) fn find_sym(ps: &Vec<(Symbol, u32)>, s: &Symbol) -> (r: Option<usize>)
    ensures
        match r {
            Some(j) => j < ps@.len() && ps@[j as int].0 == *s,
            None => forall|j: int| 0 <= j < ps@.len() ==> (#[trigger] ps@[j]).0 != *s,
        },
{
    let n = ps.len();
    let mut j: usize = 0;
    while j < n
        invariant
            n == ps@.len(),
            j <= n,
            forall|l: int| 0 <= l < j ==> (#[trigger] ps@[l]).0 != *s,
        decreases n - j,
    {
        if ps[j].0 == *s {
            return Some(j);
        }
        j += 1;
    }
    None
}

/// Positions of the padded sequence: the two leading start boundaries, the
/// word's characters, the closing end boundary.
pub proof fn lemma_padded_shape(w: Seq<char>, i: int)
    requires
        0 <= i,
        i + 2 < padded(w).len(),
    ensures
        ctx_wf(Context { fst: padded(w)[i], snd: padded(w)[i + 1] }),
        next_sym_ok(padded(w)[i + 2]),
{
    let p = padded(w);
    assert(p.len() == w.len() + 3);
    assert(forall|j: int| 0 <= j < 2 ==> p[j] == Symbol::Start);
    assert(forall|j: int| 2 <= j < w.len() + 2 ==> p[j] == Symbol::Letter(w[j - 2]));
    assert(p[w.len() as int + 2] == Symbol::End);
}


/// The weights of a transition listing, in listing order.
pub open spec fn pair_weights(ps: Seq<(Symbol, u32)>) -> Seq<u32> {
    Seq::new(ps.len(), |j: int| ps[j].1)
}

/// Whether one context's weights stay within the sampler builder's u32
/// arithmetic: the count of weights times their sum fits in a u32.
pub open spec fn entry_fits(ps: Seq<(Symbol, u32)>) -> bool {
    ps.len() * sum_u32(pair_weights(ps)) <= u32::MAX
}

/// A compiled sampler for one context: the observed next symbols with
/// their counts, and weighted_rand's alias table over those counts.
pub struct CharChooser {
    pub(crate) pairs: Vec<(Symbol, u32)>,
    pub(crate) table: WalkerTable,
}

impl CharChooser {
    /// The symbol/weight pairs the sampler draws from.
    pub closed spec fn pairs_seq(&self) -> Seq<(Symbol, u32)> {
        self.pairs@
    }

    /// At least one pair, distinct symbols, positive counts, no start
    /// boundary, weights within the builder's arithmetic, and an alias
    /// table with one slot per pair.
    pub closed spec fn wf(&self) -> bool {
        &&& self.pairs@.len() > 0
        &&& keys_distinct(self.pairs@)
        &&& (forall|j: int|
            0 <= j < self.pairs@.len() ==> (#[trigger] self.pairs@[j]).1 >= 1 && next_sym_ok(
                self.pairs@[j].0,
            ))
        &&& entry_fits(self.pairs@)
        &&& walker_size(self.table) == self.pairs@.len()
    }

    /// Build the sampler for one context from its symbol counts.
    pub fn new(pairs: Vec<(Symbol, u32)>) -> (r: Self)
        requires
            pairs@.len() > 0,
            keys_distinct(pairs@),
            forall|j: int|
                0 <= j < pairs@.len() ==> (#[trigger] pairs@[j]).1 >= 1 && next_sym_ok(
                    pairs@[j].0,
                ),
            entry_fits(pairs@),
        ensures
            r.wf(),
            r.pairs_seq() == pairs@,
    {
        let n = pairs.len();
        let mut weights: Vec<u32> = Vec::new();
        let mut j: usize = 0;
        while j < n
            invariant
                n == pairs@.len(),
                j <= n,
                weights@ == pair_weights(pairs@).take(j as int),
            decreases n - j,
        {
            weights.push(pairs[j].1);
            j += 1;
            proof {
                assert(weights@ =~= pair_weights(pairs@).take(j as int));
            }
        }
        proof {
            assert(weights@ =~= pair_weights(pairs@));
        }
        let t = build_walker(&weights);
        CharChooser { pairs, table: t }
    }

    /// Draw one next symbol: always one of this sampler's symbols. Each
    /// draw consumes randomness and may differ from the last.
    pub fn sample(&self, rng: &mut StdRng) -> (s: Symbol)
        requires
            self.wf(),
        ensures
            exists|j: int|
                0 <= j < self.pairs_seq().len() && (#[trigger] self.pairs_seq()[j]).0 == s,
            next_sym_ok(s),
    {
        let i = walker_next(&self.table, rng);
        let s = self.pairs[i].0;
        proof {
            assert((self.pairs_seq()[i as int]).0 == s);
        }
        s
    }
}

/// A word-generation failure: the retry budget ran out, or a context
/// visited during a walk had no sampler.
#[derive(Clone, Copy, Debug, PartialEq, Eq, Structural)]
pub enum WordGenerationError {
    IterationsExceeded(usize),
    InvalidMarkovChain,
}

/// Every three-symbol window of the padded word names a transition the
/// table holds: the word can be produced by a walk over the table.
pub open spec fn generated_by(t: FreqMap, w: Seq<char>) -> bool {
    forall|i: int|
        0 <= i && i + 2 < padded(w).len() ==> {
            let k = Context { fst: padded(w)[i], snd: #[trigger] padded(w)[i + 1] };
            t.contains_key(k) && t[k].contains_key(padded(w)[i + 2])
        }
}

/// The windows lying wholly inside the prefix of a walk still in progress.
pub open spec fn prefix_ok(t: FreqMap, w: Seq<char>) -> bool {
    forall|i: int|
        0 <= i && i + 2 < walk_prefix(w).len() ==> {
            let k = Context { fst: walk_prefix(w)[i], snd: #[trigger] walk_prefix(w)[i + 1] };
            t.contains_key(k) && t[k].contains_key(walk_prefix(w)[i + 2])
        }
}

/// A compiled Markov chain: one sampler per observed context, and the
/// training words carried forward for novelty checks. Immutable once built.
pub struct CharkovChain {
    pub(crate) chain: Vec<(Context, CharChooser)>,
    pub(crate) words: Vec<String>,
}

impl CharkovChain {
    /// The transition entries the chain's samplers were built from.
    pub closed spec fn entries(&self) -> Seq<(Context, Seq<(Symbol, u32)>)> {
        Seq::new(self.chain@.len(), |i: int| (self.chain@[i].0, self.chain@[i].1.pairs_seq()))
    }

    /// The frequency table the chain denotes.
    pub open spec fn table(&self) -> FreqMap {
        table_of(self.entries())
    }

    /// The training words, in first-fed order, without repetitions.
    pub closed spec fn word_seq(&self) -> Seq<Seq<char>> {
        Seq::new(self.words@.len(), |i: int| self.words@[i]@)
    }

    /// The known-word set: generated words must not fall in it.
    pub open spec fn word_set(&self) -> Set<Seq<char>> {
        self.word_seq().to_set()
    }

    /// Every sampler is well formed.
    pub closed spec fn choosers_wf(&self) -> bool {
        forall|i: int| 0 <= i < self.chain@.len() ==> (#[trigger] self.chain@[i]).1.wf()
    }

    pub open spec fn wf(&self) -> bool {
        &&& listing_wf(self.entries(), self.word_seq())
        &&& self.choosers_wf()
    }

    /// The index of the sampler for context `k`, if one exists.
    fn find_ctx(&self, k: &Context) -> (r: Option<usize>)
        ensures
            match r {
                Some(i) => i < self.entries().len() && self.entries()[i as int].0 == *k,
                None => forall|i: int|
                    0 <= i < self.entries().len() ==> (#[trigger] self.entries()[i]).0 != *k,
            },
    {
        let n = self.chain.len();
        let mut i: usize = 0;
        while i < n
            invariant
                n == self.chain@.len(),
                i <= n,
                forall|j: int| 0 <= j < i ==> (#[trigger] self.entries()[j]).0 != *k,
            decreases n - i,
        {
            if self.chain[i].0 == *k {
                return Some(i);
            }
            i += 1;
        }
        None
    }

    /// Whether the given word is in the known-word set.
    fn has_word(&self, w: &String) -> (r: bool)
        ensures
            r == self.word_set().contains(w@),
    {
        let n = self.words.len();
        let mut i: usize = 0;
        while i < n
            invariant
                n == self.words@.len(),
                i <= n,
                forall|j: int| 0 <= j < i ==> self.word_seq()[j] != w@,
            decreases n - i,
        {
            if self.words[i] == *w {
                proof {
                    assert(self.word_seq()[i as int] == w@);
                    assert(self.word_seq().contains(w@));
                }
                return true;
            }
            i += 1;
        }
        proof {
            assert(!self.word_seq().contains(w@));
        }
        false
    }

    /// Compile an accumulator: build one weighted sampler per observed
    /// context from its counts, and carry the known-word set forward
    /// unchanged. The accumulator is consumed.
    pub fn compile(counter: CharCounter) -> (r: CharkovChain)
        requires
            counter.wf(),
            counter.fits_sampler(),
        ensures
            r.wf(),
            r.entries() == counter.entries(),
            r.word_seq() == counter.word_seq(),
            r.table() == counter.table(),
    {
        let ghost es0 = counter.entries();
        let CharCounter { counts, words } = counter;
        let n = counts.len();
        let mut chain: Vec<(Context, CharChooser)> = Vec::new();
        let mut i: usize = 0;
        while i < n
            invariant
                n == counts@.len(),
                i <= n,
                es0 == Seq::new(counts@.len(), |l: int| (counts@[l].0, counts@[l].1@)),
                listing_wf(es0, Seq::<Seq<char>>::empty()),
                forall|l: int| 0 <= l < es0.len() ==> entry_fits((#[trigger] es0[l]).1),
                chain@.len() == i,
                forall|l: int|
                    0 <= l < i ==> {
                        let e = #[trigger] chain@[l];
                        e.0 == counts@[l].0 && e.1.wf() && e.1.pairs_seq() == counts@[l].1@
                    },
            decreases n - i,
        {
            let k = counts[i].0;
            let m = counts[i].1.len();
            let mut ps: Vec<(Symbol, u32)> = Vec::new();
            let mut j: usize = 0;
            while j < m
                invariant
                    i < counts@.len(),
                    m == counts@[i as int].1@.len(),
                    j <= m,
                    ps@ == counts@[i as int].1@.take(j as int),
                decreases m - j,
            {
                let pr = counts[i].1[j];
                ps.push(pr);
                j += 1;
                proof {
                    assert(ps@ =~= counts@[i as int].1@.take(j as int));
                }
            }
            proof {
                assert(ps@ =~= counts@[i as int].1@);
                assert(es0[i as int] == (counts@[i as int].0, counts@[i as int].1@));
                assert(entry_wf(es0[i as int].0, es0[i as int].1));
                assert(entry_fits(es0[i as int].1));
            }
            let ch = CharChooser::new(ps);
            chain.push((k, ch));
            i += 1;
        }
        let r = CharkovChain { chain, words };
        proof {
            assert(r.entries() =~= es0);
            assert(r.word_seq() =~= counter.word_seq());
            assert(r.wf());
        }
        r
    }

    /// Walk the chain from the start context, drawing one next symbol at a
    /// time, until the end boundary is drawn; fails with
    /// `InvalidMarkovChain` if a visited context has no sampler, which a
    /// chain whose table is reachability-closed never meets. No length
    /// bound is imposed beyond an internal step counter that gives the
    /// loop a measure; a walk that somehow ran it out would report
    /// exhaustion, though no real draw sequence comes near it.
    pub fn candidate_word(&self, rng: &mut StdRng) -> (r: Result<String, WordGenerationError>)
        requires
            self.wf(),
        ensures
            r matches Ok(w) ==> generated_by(self.table(), w@),
            r matches Err(e) ==> (e is InvalidMarkovChain || e
                == WordGenerationError::IterationsExceeded(usize::MAX)),
            !self.table().contains_key(
                Context { fst: Symbol::Start, snd: Symbol::Start },
            ) ==> r == Result::<String, WordGenerationError>::Err(
                WordGenerationError::InvalidMarkovChain,
            ),
            closed_table(self.table()) && self.table().contains_key(
                Context { fst: Symbol::Start, snd: Symbol::Start },
            ) ==> (r matches Err(e) ==> e == WordGenerationError::IterationsExceeded(usize::MAX)),
    {
        let mut result = String::new();
        let mut cur = Context { fst: Symbol::Start, snd: Symbol::Start };
        proof {
            assert(result@ =~= Seq::<char>::empty());
        }
        // The step counter only gives the loop a measure: no walk that
        // draws once per nanosecond could exhaust it within centuries.
        let mut steps: usize = 0;
        while steps < usize::MAX
            invariant
                self.wf(),
                prefix_ok(self.table(), result@),
                cur.fst == walk_prefix(result@)[walk_prefix(result@).len() - 2],
                cur.snd == walk_prefix(result@)[walk_prefix(result@).len() - 1],
                steps == 0 ==> result@.len() == 0,
                steps > 0 ==> self.table().contains_key(
                    Context { fst: Symbol::Start, snd: Symbol::Start },
                ),
                result@.len() > 0 ==> self.table().contains_key(
                    Context { fst: Symbol::Start, snd: Symbol::Start },
                ),
                closed_table(self.table()) && self.table().contains_key(
                    Context { fst: Symbol::Start, snd: Symbol::Start },
                ) ==> self.table().contains_key(cur),
            decreases usize::MAX - steps,
        {
            let ghost result_was_empty = result@.len() == 0;
            steps += 1;
            match self.find_ctx(&cur) {
                None => {
                    proof {
                        if closed_table(self.table()) && self.table().contains_key(
                            Context { fst: Symbol::Start, snd: Symbol::Start },
                        ) {
                            let es = self.entries();
                            lemma_map_of_contains(mapped_entries(es), cur);
                            assert(forall|l: int|
                                0 <= l < mapped_entries(es).len() ==> (#[trigger] mapped_entries(
                                    es,
                                )[l]).0 != cur);
                            assert(!self.table().contains_key(cur));
                        }
                    }
                    return Err(WordGenerationError::InvalidMarkovChain);
                },
                Some(i) => {
                    let ghost es = self.entries();
                    proof {
                        assert(keys_distinct(mapped_entries(es)));
                        lemma_map_of_index(mapped_entries(es), i as int);
                        assert(self.table()[cur] == map_of(es[i as int].1));
                    }
                    let s = self.chain[i].1.sample(rng);
                    proof {
                        lemma_map_of_contains(es[i as int].1, s);
                        assert(self.table().contains_key(cur));
                        assert(self.table()[cur].contains_key(s));
                    }
                    match s {
                        Symbol::End => {
                            proof {
                                let w = result@;
                                assert forall|l: int| 0 <= l && l + 2 < padded(w).len() implies {
                                    let k = Context {
                                        fst: padded(w)[l],
                                        snd: #[trigger] padded(w)[l + 1],
                                    };
                                    self.table().contains_key(k) && self.table()[k].contains_key(
                                        padded(w)[l + 2],
                                    )
                                } by {
                                    if l + 2 < walk_prefix(w).len() {
                                        assert(walk_prefix(w)[l] == padded(w)[l]);
                                        assert(walk_prefix(w)[l + 1] == padded(w)[l + 1]);
                                        assert(walk_prefix(w)[l + 2] == padded(w)[l + 2]);
                                    } else {
                                        assert(l == w.len());
                                        assert(padded(w)[l] == cur.fst);
                                        assert(padded(w)[l + 1] == cur.snd);
                                        assert(padded(w)[l + 2] == Symbol::End);
                                    }
                                }
                                if w.len() == 0 {
                                    assert(cur.fst == Symbol::Start && cur.snd == Symbol::Start);
                                }
                                assert(self.table().contains_key(
                                    Context { fst: Symbol::Start, snd: Symbol::Start },
                                ));
                            }
                            return Ok(result);
                        },
                        Symbol::Letter(c) => {
                            let ghost w0 = result@;
                            let ghost prev_cur = cur;
                            push_char(&mut result, c);
                            cur = Context { fst: cur.snd, snd: Symbol::Letter(c) };
                            proof {
                                let w1 = result@;
                                assert(w1 == w0.push(c));
                                if w0.len() == 0 {
                                    assert(walk_prefix(w0)[0] == Symbol::Start);
                                    assert(walk_prefix(w0)[1] == Symbol::Start);
                                    assert(prev_cur == Context {
                                        fst: Symbol::Start,
                                        snd: Symbol::Start,
                                    });
                                }
                                if closed_table(self.table()) && self.table().contains_key(
                                    Context { fst: Symbol::Start, snd: Symbol::Start },
                                ) {
                                    assert(has_transition(
                                        self.table(),
                                        prev_cur,
                                        Symbol::Letter(c),
                                    ));
                                    assert(self.table().contains_key(cur));
                                }
                                assert(prefix_ok(self.table(), w1)) by {
                                    assert forall|l: int|
                                        0 <= l && l + 2 < walk_prefix(w1).len() implies {
                                        let k = Context {
                                            fst: walk_prefix(w1)[l],
                                            snd: #[trigger] walk_prefix(w1)[l + 1],
                                        };
                                        self.table().contains_key(k)
                                            && self.table()[k].contains_key(walk_prefix(w1)[l + 2])
                                    } by {
                                        if l + 2 < walk_prefix(w0).len() {
                                            assert(walk_prefix(w1)[l] == walk_prefix(w0)[l]);
                                            assert(walk_prefix(w1)[l + 1] == walk_prefix(w0)[l
                                                + 1]);
                                            assert(walk_prefix(w1)[l + 2] == walk_prefix(w0)[l
                                                + 2]);
                                        } else {
                                            assert(l == w0.len());
                                            assert(walk_prefix(w1)[l] == walk_prefix(w0)[l]);
                                            assert(walk_prefix(w1)[l + 1] == walk_prefix(w0)[l
                                                + 1]);
                                            assert(walk_prefix(w1)[l + 2] == Symbol::Letter(c));
                                        }
                                    }
                                }
                                assert(cur.fst == walk_prefix(w1)[walk_prefix(w1).len() - 2]);
                                assert(cur.snd == walk_prefix(w1)[walk_prefix(w1).len() - 1]);
                            }
                        },
                        Symbol::Start => {
                            proof {
                                assert(false);
                            }
                            return Err(WordGenerationError::InvalidMarkovChain);
                        },
                    }
                },
            }
        }
        Err(WordGenerationError::IterationsExceeded(usize::MAX))
    }

    /// Draw candidate words until one is acceptable: its character count
    /// must lie in `min_len ..= max_len` inclusive, and it must not be one
    /// of the training words. Gives up with `IterationsExceeded` after a
    /// fixed budget of a thousand attempts; a walk that visits a context
    /// without a sampler fails at once with `InvalidMarkovChain`, while a
    /// walk that exhausts its internal step counter merely counts as one
    /// failed attempt. Over a chain whose table is reachability-closed and
    /// holds the start context, `InvalidMarkovChain` never comes back.
    pub fn word(&self, min_len: usize, max_len: usize, rng: &mut StdRng) -> (r: Result<
        String,
        WordGenerationError,
    >)
        requires
            self.wf(),
            3 <= min_len,
            5 <= max_len,
            min_len <= max_len,
        ensures
            r matches Ok(w) ==> {
                &&& min_len <= w@.len() <= max_len
                &&& !self.word_set().contains(w@)
                &&& generated_by(self.table(), w@)
            },
            r matches Err(e) ==> (e == WordGenerationError::IterationsExceeded(1000usize)
                || e == WordGenerationError::InvalidMarkovChain),
            closed_table(self.table()) && self.table().contains_key(
                Context { fst: Symbol::Start, snd: Symbol::Start },
            ) ==> (r matches Err(e) ==> e == WordGenerationError::IterationsExceeded(1000usize)),
    {
        let mut attempt: usize = 0;
        while attempt < 1000
            invariant
                self.wf(),
            decreases 1000 - attempt,
        {
            match self.candidate_word(rng) {
                Ok(candidate) => {
                    let len = candidate.as_str().unicode_len();
                    if min_len <= len && len <= max_len && !self.has_word(&candidate) {
                        return Ok(candidate);
                    }
                },
                Err(WordGenerationError::InvalidMarkovChain) => {
                    return Err(WordGenerationError::InvalidMarkovChain);
                },
                Err(WordGenerationError::IterationsExceeded(_)) => {
                    // the walk ran out its internal step counter: one
                    // failed attempt
                },
            }
            attempt += 1;
        }
        Err(WordGenerationError::IterationsExceeded(1000))
    }
}

/// How a requested length range can be unacceptable: the minimum below
/// three, the maximum below five, or the minimum above the maximum.
#[derive(Clone, Copy, Debug, PartialEq, Eq, Structural)]
pub enum LengthRangeError {
    MinTooSmall,
    MaxTooSmall,
    MinAboveMax,
}

/// Validate a requested length range before generation, checking the
/// minimum first, then the maximum, then their order.
pub fn check_length_range(min_len: usize, max_len: usize) -> (r: Result<(), LengthRangeError>)
    ensures
        r is Ok <==> (3 <= min_len && 5 <= max_len && min_len <= max_len),
        min_len < 3 ==> r == Result::<(), LengthRangeError>::Err(LengthRangeError::MinTooSmall),
        min_len >= 3 && max_len < 5 ==> r == Result::<(), LengthRangeError>::Err(
            LengthRangeError::MaxTooSmall,
        ),
        min_len >= 3 && max_len >= 5 && min_len > max_len ==> r == Result::<
            (),
            LengthRangeError,
        >::Err(LengthRangeError::MinAboveMax),
{
    if min_len < 3 {
        Err(LengthRangeError::MinTooSmall)
    } else if max_len < 5 {
        Err(LengthRangeError::MaxTooSmall)
    } else if min_len > max_len {
        Err(LengthRangeError::MinAboveMax)
    } else {
        Ok(())
    }
}

/// Check one context's counts against the sampler builder's arithmetic:
/// true exactly when the count of weights times their sum fits in a u32.
pub(crate) fn entry_within_limit(ps: &Vec<(Symbol, u32)>) -> (r: bool)
    requires
        forall|j: int| 0 <= j < ps@.len() ==> (#[trigger] ps@[j]).1 >= 1,
    ensures
        r == entry_fits(ps@),
{
    let ghost ws = pair_weights(ps@);
    let n = ps.len();
    let mut acc: u64 = 0;
    let mut j: usize = 0;
    while j < n
        invariant
            n == ps@.len(),
            ws == pair_weights(ps@),
            forall|l: int| 0 <= l < ps@.len() ==> (#[trigger] ps@[l]).1 >= 1,
            j <= n,
            acc as int == sum_u32(ws.take(j as int)),
            acc <= u32::MAX as u64,
        decreases n - j,
    {
        let w = ps[j].1;
        proof {
            lemma_sum_take_succ(ws, j as int);
        }
        let na: u64 = acc + (w as u64);
        if na > (u32::MAX as u64) {
            proof {
                lemma_sum_take_le(ws, j as int + 1);
                let total = sum_u32(ws);
                assert(total > u32::MAX);
                assert(ws.len() >= 1);
                assert(ws.len() * total >= total) by (nonlinear_arith)
                    requires
                        ws.len() >= 1,
                        total > 0,
                ;
            }
            return false;
        }
        acc = na;
        j += 1;
    }
    proof {
        assert(ws.take(n as int) =~= ws);
        lemma_sum_lower_bound(ws);
        assert(n <= acc);
    }
    proof {
        assert((n as u64) as int * (acc as int) <= (u32::MAX as int) * (u32::MAX as int))
            by (nonlinear_arith)
            requires
                (n as u64) <= u32::MAX as u64,
                acc <= u32::MAX as u64,
        ;
    }
    let prod: u64 = (n as u64) * acc;
    prod <= (u32::MAX as u64)
}


/// Every context recorded by training has strictly positive total weight:
/// some next symbol under it carries a positive count. This holds of any
/// accumulator built by `new` and `feed_word`, since both establish and
/// preserve well-formedness.
pub proof fn lemma_positive_weight(c: &CharCounter, k: Context)
    requires
        c.wf(),
        c.table().contains_key(k),
    ensures
        exists|s: Symbol| c.table()[k].contains_key(s) && c.table()[k][s] > 0,
{
    let es = c.entries();
    let mapped = mapped_entries(es);
    assert(keys_distinct(mapped));
    lemma_map_of_contains(mapped, k);
    let i = choose|i: int| 0 <= i < mapped.len() && (#[trigger] mapped[i]).0 == k;
    lemma_map_of_index(mapped, i);
    assert(entry_wf(es[i].0, es[i].1));
    lemma_map_of_index(es[i].1, 0);
    let s0 = es[i].1[0].0;
    assert(c.table()[k].contains_key(s0) && c.table()[k][s0] >= 1);
}

/// Recording two occurrences commutes, whatever their contexts and symbols.
pub proof fn lemma_bump_comm(t: FreqMap, k1: Context, s1: Symbol, k2: Context, s2: Symbol)
    ensures
        bump(bump(t, k1, s1), k2, s2) == bump(bump(t, k2, s2), k1, s1),
{
    let a = bump(bump(t, k1, s1), k2, s2);
    let b = bump(bump(t, k2, s2), k1, s1);
    assert(a =~~= b);
}

/// Recording one more occurrence commutes with recording a run of windows.
pub proof fn lemma_bump_feed_windows(t: FreqMap, p: Seq<Symbol>, i: int, k: Context, s: Symbol)
    ensures
        bump(feed_windows(t, p, i), k, s) == feed_windows(bump(t, k, s), p, i),
    decreases p.len() - i,
{
    if i < 0 || i + 3 > p.len() {
    } else {
        let kk = Context { fst: p[i], snd: p[i + 1] };
        let ss = p[i + 2];
        lemma_bump_comm(t, kk, ss, k, s);
        lemma_bump_feed_windows(bump(t, kk, ss), p, i + 1, k, s);
    }
}

/// Feeding a word commutes with recording a run of windows.
pub proof fn lemma_feed_windows_comm(t: FreqMap, w1: Seq<char>, p: Seq<Symbol>, i: int)
    ensures
        feed_windows(feed_word_spec(t, w1), p, i) == feed_word_spec(feed_windows(t, p, i), w1),
    decreases p.len() - i,
{
    if i < 0 || i + 3 > p.len() {
    } else {
        let kk = Context { fst: p[i], snd: p[i + 1] };
        let ss = p[i + 2];
        lemma_bump_feed_windows(t, padded(w1), 0, kk, ss);
        lemma_feed_windows_comm(bump(t, kk, ss), w1, p, i + 1);
    }
}

/// Feeding two words commutes.
pub proof fn lemma_feed_word_comm(t: FreqMap, w1: Seq<char>, w2: Seq<char>)
    ensures
        feed_word_spec(feed_word_spec(t, w1), w2) == feed_word_spec(feed_word_spec(t, w2), w1),
{
    lemma_feed_windows_comm(t, w1, padded(w2), 0);
}

/// `feed_all` is the left fold of word feeding over the word sequence.
proof fn lemma_feed_all_fold(
    t: FreqMap,
    ws: Seq<Seq<char>>,
    f: spec_fn(FreqMap, Seq<char>) -> FreqMap,
)
    requires
        forall|a: FreqMap, w: Seq<char>| #[trigger] f(a, w) == feed_word_spec(a, w),
    ensures
        feed_all(t, ws) == ws.fold_left(t, f),
    decreases ws.len(),
{
    if ws.len() > 0 {
        lemma_feed_all_fold(t, ws.drop_last(), f);
    }
}

/// Feeding is order-independent: feeding the same multiset of words, in
/// any order, from the same starting table yields an identical frequency
/// table, because each feed is pure counting.
pub proof fn lemma_feed_order_independent(t: FreqMap, ws1: Seq<Seq<char>>, ws2: Seq<Seq<char>>)
    requires
        ws1.to_multiset() == ws2.to_multiset(),
    ensures
        feed_all(t, ws1) == feed_all(t, ws2),
{
    let f = |acc: FreqMap, w: Seq<char>| feed_word_spec(acc, w);
    assert(commutative_foldl(f)) by {
        assert forall|x: Seq<char>, y: Seq<char>, v: FreqMap| #[trigger] f(f(v, x), y) == f(
            f(v, y),
            x,
        ) by {
            lemma_feed_word_comm(v, x, y);
        }
    }
    lemma_feed_all_fold(t, ws1, f);
    lemma_feed_all_fold(t, ws2, f);
    lemma_fold_left_permutation(ws1, ws2, f, t);
}


/// How the chain's abstract entries lie in its fields, for the codec.
pub(crate) proof fn lemma_chain_repr(c: &CharkovChain)
    ensures
        c.entries() == Seq::new(
            c.chain@.len(),
            |i: int| (c.chain@[i].0, c.chain@[i].1.pairs@),
        ),
        c.word_seq() == Seq::new(c.words@.len(), |i: int| c.words@[i]@),
{
    assert(c.entries() =~= Seq::new(
        c.chain@.len(),
        |i: int| (c.chain@[i].0, c.chain@[i].1.pairs@),
    ));
}

/// Assemble a chain from already-built samplers and words, for the codec.
pub(crate) fn assemble_chain(chain: Vec<(Context, CharChooser)>, words: Vec<String>) -> (r:
    CharkovChain)
    requires
        listing_wf(
            Seq::new(chain@.len(), |i: int| (chain@[i].0, chain@[i].1.pairs_seq())),
            Seq::new(words@.len(), |i: int| words@[i]@),
        ),
        forall|i: int| 0 <= i < chain@.len() ==> (#[trigger] chain@[i]).1.wf(),
    ensures
        r.wf(),
        r.entries() == Seq::new(chain@.len(), |i: int| (chain@[i].0, chain@[i].1.pairs_seq())),
        r.word_seq() == Seq::new(words@.len(), |i: int| words@[i]@),
{
    let r = CharkovChain { chain, words };
    proof {
        assert(r.entries() =~= Seq::new(
            r.chain@.len(),
            |i: int| (r.chain@[i].0, r.chain@[i].1.pairs_seq()),
        ));
        assert(r.word_seq() =~= Seq::new(r.words@.len(), |i: int| r.words@[i]@));
    }
    r
}


/// How the accumulator's abstract entries lie in its fields, for the codec.
pub(crate) proof fn lemma_counter_repr(c: &CharCounter)
    ensures
        c.entries() == Seq::new(c.counts@.len(), |i: int| (c.counts@[i].0, c.counts@[i].1@)),
        c.word_seq() == Seq::new(c.words@.len(), |i: int| c.words@[i]@),
{
    assert(c.entries() =~= Seq::new(c.counts@.len(), |i: int| (c.counts@[i].0, c.counts@[i].1@)));
}


/// Every symbol the table knows appears somewhere in the listing.
pub open spec fn complete_listing(t: Map<Symbol, u32>, v: Seq<(Symbol, u32)>) -> bool {
    forall|s: Symbol|
        t.contains_key(s) ==> exists|j: int| 0 <= j < v.len() && (#[trigger] v[j]).0 == s
}

/// The listing order for transitions: larger counts first, ties broken by
/// symbol rank ascending, so the end boundary comes before characters.
pub open spec fn pair_before(a: (Symbol, u32), b: (Symbol, u32)) -> bool {
    a.1 > b.1 || (a.1 == b.1 && sym_rank(a.0) < sym_rank(b.0))
}

/// The order decides every pair of transitions with distinct symbols.
pub proof fn lemma_pair_before_total(a: (Symbol, u32), b: (Symbol, u32))
    requires
        a.0 != b.0,
    ensures
        pair_before(a, b) || pair_before(b, a),
{
    if a.1 == b.1 && sym_rank(a.0) == sym_rank(b.0) {
        lemma_sym_rank_injective(a.0, b.0);
    }
}

/// The listing order, computed executably.
fn pair_before_exec(a: &(Symbol, u32), b: &(Symbol, u32)) -> (r: bool)
    ensures
        r == pair_before(*a, *b),
{
    if a.1 > b.1 {
        true
    } else if a.1 == b.1 {
        sym_rank_val(&a.0) < sym_rank_val(&b.0)
    } else {
        false
    }
}

impl CharCounter {
    /// The transitions recorded for a context, listed most frequent first
    /// with ties broken by symbol order (the end boundary before
    /// characters); `None` when the context was never observed.
    #[verifier::rlimit(80)]
    pub fn most_common_ordered(&self, k: &Context) -> (r: Option<Vec<(Symbol, u32)>>)
        requires
            self.wf(),
        ensures
            r is Some <==> self.table().contains_key(*k),
            r matches Some(v) ==> forall|j: int|
                0 <= j < v@.len() ==> self.table()[*k].contains_key((#[trigger] v@[j]).0)
                    && self.table()[*k][v@[j].0] == v@[j].1,
            r matches Some(v) ==> complete_listing(self.table()[*k], v@),
            r matches Some(v) ==> keys_distinct(v@),
            r matches Some(v) ==> forall|x: int, y: int|
                0 <= x < y < v@.len() ==> pair_before(v@[x], v@[y]),
    {
        let ghost es = self.entries();
        let ghost mapped = mapped_entries(es);
        proof {
            assert(keys_distinct(mapped));
            lemma_map_of_contains(mapped, *k);
        }
        let idx = match self.find_ctx(k) {
            Some(i) => i,
            None => {
                return None;
            },
        };
        let ghost inner = es[idx as int].1;
        proof {
            lemma_map_of_index(mapped, idx as int);
            assert(self.table()[*k] == map_of(inner));
            assert(entry_wf(es[idx as int].0, inner));
            assert forall|j: int|
                0 <= j < inner.len() implies self.table()[*k].contains_key(
                (#[trigger] inner[j]).0,
            ) && self.table()[*k][inner[j].0] == inner[j].1 by {
                lemma_map_of_index(inner, j);
            }
            assert forall|s: Symbol| self.table()[*k].contains_key(s) implies exists|j: int|
                0 <= j < inner.len() && (#[trigger] inner[j]).0 == s by {
                lemma_map_of_contains(inner, s);
            }
        }
        let m = self.counts[idx].1.len();
        let mut rem: Vec<(Symbol, u32)> = Vec::new();
        let mut ci: usize = 0;
        while ci < m
            invariant
                idx < self.counts@.len(),
                inner == self.counts@[idx as int].1@,
                m == inner.len(),
                ci <= m,
                rem@ == inner.take(ci as int),
            decreases m - ci,
        {
            let pr = self.counts[idx].1[ci];
            rem.push(pr);
            ci += 1;
            proof {
                assert(rem@ =~= inner.take(ci as int));
            }
        }
        proof {
            assert(rem@ =~= inner);
        }
        let mut out: Vec<(Symbol, u32)> = Vec::new();
        while rem.len() > 0
            invariant
                self.wf(),
                self.table().contains_key(*k),
                forall|j: int|
                    0 <= j < out@.len() ==> self.table()[*k].contains_key((#[trigger] out@[j]).0)
                        && self.table()[*k][out@[j].0] == out@[j].1,
                forall|j: int|
                    0 <= j < rem@.len() ==> self.table()[*k].contains_key((#[trigger] rem@[j]).0)
                        && self.table()[*k][rem@[j].0] == rem@[j].1,
                forall|s: Symbol|
                    self.table()[*k].contains_key(s) ==> (exists|j: int|
                        0 <= j < out@.len() && (#[trigger] out@[j]).0 == s) || (exists|j: int|
                        0 <= j < rem@.len() && (#[trigger] rem@[j]).0 == s),
                keys_distinct(out@),
                keys_distinct(rem@),
                forall|x: int, y: int|
                    0 <= x < out@.len() && 0 <= y < rem@.len() ==> (#[trigger] out@[x]).0 != (
                    #[trigger] rem@[y]).0,
                forall|x: int, y: int| 0 <= x < y < out@.len() ==> pair_before(out@[x], out@[y]),
                forall|x: int, y: int|
                    0 <= x < out@.len() && 0 <= y < rem@.len() ==> pair_before(
                        out@[x],
                        rem@[y],
                    ),
            decreases rem@.len(),
        {
            let mut best: usize = 0;
            let mut t: usize = 1;
            while t < rem.len()
                invariant
                    rem@.len() > 0,
                    best < t <= rem@.len(),
                    forall|u: int|
                        0 <= u < t && u != best ==> !pair_before(
                            (#[trigger] rem@[u]),
                            rem@[best as int],
                        ),
                decreases rem@.len() - t,
            {
                if pair_before_exec(&rem[t], &rem[best]) {
                    best = t;
                }
                t += 1;
            }
            proof {
                assert forall|u: int|
                    0 <= u < rem@.len() && u != best implies pair_before(
                    rem@[best as int],
                    (#[trigger] rem@[u]),
                ) by {
                    lemma_pair_before_total(rem@[best as int], rem@[u]);
                }
            }
            let ghost rem_old = rem@;
            let ghost out_old = out@;
            let chosen = rem.remove(best);
            out.push(chosen);
            proof {
                assert(rem@ == rem_old.remove(best as int));
                assert(out@ == out_old.push(chosen));
                assert forall|j: int|
                    0 <= j < rem@.len() implies exists|l: int|
                    0 <= l < rem_old.len() && l != best && rem_old[l] == (
                    #[trigger] rem@[j]) by {
                    if j < best {
                        assert(rem_old[j] == rem@[j]);
                    } else {
                        assert(rem_old[j + 1] == rem@[j]);
                    }
                }
                assert forall|s: Symbol|
                    self.table()[*k].contains_key(s) implies (exists|j: int|
                    0 <= j < out@.len() && (#[trigger] out@[j]).0 == s) || (exists|j: int|
                    0 <= j < rem@.len() && (#[trigger] rem@[j]).0 == s) by {
                    if exists|j: int| 0 <= j < out_old.len() && (#[trigger] out_old[j]).0 == s {
                        let j = choose|j: int|
                            0 <= j < out_old.len() && (#[trigger] out_old[j]).0 == s;
                        assert(out@[j].0 == s);
                    } else {
                        let j = choose|j: int|
                            0 <= j < rem_old.len() && (#[trigger] rem_old[j]).0 == s;
                        if j == best {
                            assert(out@[out@.len() - 1].0 == s);
                        } else if j < best {
                            assert(rem@[j].0 == s);
                        } else {
                            assert(rem@[j - 1].0 == s);
                        }
                    }
                }
            }
        }
        proof {
            assert(forall|j: int|
                0 <= j < out@.len() ==> self.table()[*k].contains_key((#[trigger] out@[j]).0)
                    && self.table()[*k][out@[j].0] == out@[j].1);
            assert(complete_listing(self.table()[*k], out@));
            assert(keys_distinct(out@));
            assert(forall|x: int, y: int|
                0 <= x < y < out@.len() ==> pair_before(out@[x], out@[y]));
        }
        Some(out)
    }
}

} // verus!
