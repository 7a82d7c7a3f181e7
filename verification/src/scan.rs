//! Structural tokens: which bytes of a text open or close a node.
use vstd::prelude::*;

verus! {

/// The three bytes that give a text its structure.
#[derive(Clone, Copy, Debug, PartialEq, Eq, Structural)]
pub struct Tokens {
    /// The byte that opens a node.
    pub start: u8,
    /// The byte that closes a node.
    pub end: u8,
    /// The byte that, placed directly before one of the other two, makes it
    /// ordinary text.
    pub escape: u8,
}

/// The positions in `found`, as mathematical integers.
pub open spec fn as_ints(found: Seq<usize>) -> Seq<int> {
    Seq::new(found.len(), |k: int| found[k] as int)
}

impl Tokens {
    /// Whether `byte` is the opening or the closing byte.
    pub open spec fn is_structural_byte(self, byte: u8) -> bool {
        byte == self.start || byte == self.end
    }

    /// Whether the byte at `i` is a structural token of `text`: it is the
    /// opening or the closing byte, and the byte directly before it, if there
    /// is one, is not the escape byte. Only that one byte is looked at: an
    /// escape byte that is itself preceded by an escape byte still escapes.
    pub open spec fn is_token(self, text: Seq<u8>, i: int) -> bool {
        &&& 0 <= i < text.len()
        &&& self.is_structural_byte(text[i])
        &&& !(i > 0 && text[i - 1] == self.escape)
    }

    /// The positions below `bound` that hold a structural token of `text`,
    /// in increasing order.
    pub open spec fn positions_below(self, text: Seq<u8>, bound: int) -> Seq<int>
        decreases bound,
    {
        if bound <= 0 {
            Seq::empty()
        } else if self.is_token(text, bound - 1) {
            self.positions_below(text, bound - 1).push(bound - 1)
        } else {
            self.positions_below(text, bound - 1)
        }
    }

    /// All positions that hold a structural token of `text`, in increasing
    /// order.
    pub open spec fn positions(self, text: Seq<u8>) -> Seq<int> {
        self.positions_below(text, text.len() as int)
    }

    /// What `positions_below` lists: tokens below the bound, each once, in
    /// increasing order, and none is left out.
    pub proof fn lemma_positions_below(self, text: Seq<u8>, bound: int)
        ensures
            forall|k: int|
                0 <= k < self.positions_below(text, bound).len() ==> {
                    &&& (#[trigger] self.positions_below(text, bound)[k]) < bound
                    &&& self.is_token(text, self.positions_below(text, bound)[k])
                },
            forall|j: int, k: int|
                0 <= j < k < self.positions_below(text, bound).len() ==> (
                #[trigger] self.positions_below(text, bound)[j]) < (#[trigger] self.positions_below(
                    text,
                    bound,
                )[k]),
            forall|i: int|
                i < bound && #[trigger] self.is_token(text, i) ==> self.positions_below(
                    text,
                    bound,
                ).contains(i),
        decreases bound,
    {
        if bound > 0 {
            self.lemma_positions_below(text, bound - 1);
            let before = self.positions_below(text, bound - 1);
            let now = self.positions_below(text, bound);
            assert forall|i: int| i < bound && #[trigger] self.is_token(text, i) implies now.contains(
                i,
            ) by {
                if i < bound - 1 {
                    let k = choose|k: int| 0 <= k < before.len() && before[k] == i;
                    assert(now[k] == i);
                } else {
                    assert(now[now.len() - 1] == i);
                }
            }
        }
    }

    /// What `positions` lists: exactly the structural tokens of `text`, in
    /// increasing order.
    pub proof fn lemma_positions(self, text: Seq<u8>)
        ensures
            forall|k: int|
                0 <= k < self.positions(text).len() ==> self.is_token(
                    text,
                    #[trigger] self.positions(text)[k],
                ),
            forall|j: int, k: int|
                0 <= j < k < self.positions(text).len() ==> (#[trigger] self.positions(text)[j]) < (
                #[trigger] self.positions(text)[k]),
            forall|i: int| #[trigger] self.is_token(text, i) ==> self.positions(text).contains(i),
    {
        self.lemma_positions_below(text, text.len() as int);
    }

    /// A stretch of text without tokens adds nothing to the list.
    pub proof fn lemma_positions_skip(self, text: Seq<u8>, from: int, to: int)
        requires
            from <= to,
            forall|i: int| from <= i < to ==> !self.is_token(text, i),
        ensures
            self.positions_below(text, to) == self.positions_below(text, from),
        decreases to - from,
    {
        if from < to {
            self.lemma_positions_skip(text, from, to - 1);
        }
    }

    /// Lists the positions of the structural tokens of `text`, in increasing
    /// order: every occurrence of the opening or the closing byte, but for
    /// those that stand directly behind the escape byte.
    pub fn scan(&self, text: &[u8]) -> (found: Vec<usize>)
        ensures
            as_ints(found@) == self.positions(text@),
    {
        let candidates = occurrences(self.start, self.end, text);
        let mut found: Vec<usize> = Vec::new();
        let ghost mut bound: int = 0;
        let mut k: usize = 0;
        while k < candidates.len()
            invariant
                0 <= k <= candidates.len(),
                0 <= bound <= text@.len(),
                k == 0 ==> bound == 0,
                k > 0 ==> bound == candidates[k - 1] + 1,
                as_ints(found@) == self.positions_below(text@, bound),
                forall|j: int|
                    0 <= j < candidates.len() ==> (#[trigger] candidates[j]) < text@.len()
                        && self.is_structural_byte(text@[candidates[j] as int]),
                forall|i: int, j: int|
                    0 <= i < j < candidates.len() ==> (#[trigger] candidates[i]) < (
                    #[trigger] candidates[j]),
                forall|i: int|
                    0 <= i < text@.len() && self.is_structural_byte(#[trigger] text@[i])
                        ==> exists|j: int| 0 <= j < candidates.len() && candidates[j] == i,
            decreases candidates.len() - k,
        {
            let position = candidates[k];
            proof {
                assert forall|i: int| bound <= i < position implies !self.is_token(text@, i) by {
                    if self.is_structural_byte(text@[i]) {
                        let j = choose|j: int| 0 <= j < candidates.len() && candidates[j] == i;
                        if j < k {
                            if j < k - 1 {
                                assert(candidates[j] < candidates[k - 1]);
                            }
                        } else if j > k {
                            assert(candidates[k as int] < candidates[j]);
                        }
                    }
                }
                if k > 0 {
                    assert(candidates[k - 1] < candidates[k as int]);
                }
                self.lemma_positions_skip(text@, bound, position as int);
            }
            let escaped = position > 0 && text[position - 1] == self.escape;
            if !escaped {
                found.push(position);
            }
            proof {
                assert(self.is_token(text@, position as int) == !escaped);
                bound = position + 1;
                assert(as_ints(found@) =~= self.positions_below(text@, bound));
            }
            k += 1;
        }
        proof {
            assert forall|i: int| bound <= i < text@.len() implies !self.is_token(text@, i) by {
                if self.is_structural_byte(text@[i]) {
                    let j = choose|j: int| 0 <= j < candidates.len() && candidates[j] == i;
                    if j < k - 1 {
                        assert(candidates[j] < candidates[k - 1]);
                    }
                }
            }
            self.lemma_positions_skip(text@, bound, text@.len() as int);
        }
        found
    }
}

/// `memchr2_iter` of the crate memchr, run to its end: the positions of all
/// occurrences of `needle1` or `needle2` in `haystack`, in increasing order.
#[verifier::external_body]
fn occurrences(needle1: u8, needle2: u8, haystack: &[u8]) -> (found: Vec<usize>)
    ensures
        forall|k: int|
            0 <= k < found.len() ==> (#[trigger] found[k]) < haystack@.len() && (haystack@[found[k] as int]
                == needle1 || haystack@[found[k] as int] == needle2),
        forall|j: int, k: int| 0 <= j < k < found.len() ==> (#[trigger] found[j]) < (#[trigger] found[k]),
        forall|i: int|
            0 <= i < haystack@.len() && (#[trigger] haystack@[i] == needle1 || haystack@[i] == needle2)
                ==> exists|k: int| 0 <= k < found.len() && found[k] == i,
{
    memchr::memchr2_iter(needle1, needle2, haystack).collect()
}

} // verus!
