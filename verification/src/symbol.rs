//! Symbols and contexts of the character-level model.

use vstd::prelude::*;

verus! {

/// A symbol of the model: a word boundary or a concrete character. Only
/// the start boundary may open a context, and only the end boundary may
/// terminate a word.
#[derive(Clone, Copy, Debug, PartialEq, Eq, Structural)]
pub enum Symbol {
    Start,
    Letter(char),
    End,
}

/// An ordered pair of the two most recently emitted symbols; the key of
/// the transition table.
#[derive(Clone, Copy, Debug, PartialEq, Eq, Structural)]
pub struct Context {
    pub fst: Symbol,
    pub snd: Symbol,
}

/// Contexts that training can observe: no end boundary inside a context,
/// and a start boundary in second position only at the very beginning.
pub open spec fn ctx_wf(k: Context) -> bool {
    &&& !(k.fst is End)
    &&& !(k.snd is End)
    &&& (k.snd is Start ==> k.fst is Start)
}

/// Symbols that may follow a context: a character or the end boundary,
/// never the start boundary.
pub open spec fn next_sym_ok(s: Symbol) -> bool {
    !(s is Start)
}

/// The symbol at position `j` of the padded sequence of `w`: two start
/// boundaries, then the word's characters, then one end boundary.
pub open spec fn padded_at(w: Seq<char>, j: int) -> Symbol {
    if j < 2 {
        Symbol::Start
    } else if j < w.len() + 2 {
        Symbol::Letter(w[j - 2])
    } else {
        Symbol::End
    }
}

/// The padded symbol sequence of a word: two start boundaries, the word's
/// characters, one end boundary.
pub open spec fn padded(w: Seq<char>) -> Seq<Symbol> {
    Seq::new(w.len() + 3, |j: int| padded_at(w, j))
}

/// The padded sequence of a word still being generated: no end boundary yet.
pub open spec fn walk_prefix(w: Seq<char>) -> Seq<Symbol> {
    Seq::new(w.len() + 2, |j: int| padded_at(w, j))
}

/// A total order on symbols used to break ties when transitions are listed
/// by frequency: the end boundary sorts before characters, characters sort
/// by their scalar value.
pub open spec fn sym_rank(s: Symbol) -> int {
    match s {
        Symbol::Start => 0,
        Symbol::End => 1,
        Symbol::Letter(c) => 2 + c as u32,
    }
}

/// Distinct symbols have distinct ranks.
pub proof fn lemma_sym_rank_injective(a: Symbol, b: Symbol)
    requires
        sym_rank(a) == sym_rank(b),
    ensures
        a == b,
{
    broadcast use vstd::utf8::char_u32_cast;

    match (a, b) {
        (Symbol::Letter(x), Symbol::Letter(y)) => {
            assert(x as u32 == y as u32);
            assert((x as u32) as char == x);
            assert((y as u32) as char == y);
        },
        _ => {},
    }
}

/// The rank of a symbol, computed executably.
pub fn sym_rank_val(s: &Symbol) -> (r: u32)
    ensures
        r as int == sym_rank(*s),
{
    match s {
        Symbol::Start => 0,
        Symbol::End => 1,
        Symbol::Letter(c) => {
            proof {
                broadcast use vstd::utf8::char_is_scalar;

            }
            2 + (*c as u32)
        },
    }
}

} // verus!
