//! Token sets: the features of a file name, and the tokenizer that derives
//! them from the name's words.

use crate::text::{split_words, words};
use vstd::prelude::*;
use vstd::hash_set::StringHashSet;
use vstd::seq_lib::seq_to_set_is_finite;
use vstd::set_lib::lemma_len_intersect;
use vstd::string::StringExecFns;

verus! {

/// The smallest n-gram width: single words.
pub const MIN_WIDTH: usize = 1;

/// The largest n-gram width.
pub const MAX_WIDTH: usize = 4;

/// The n-gram width that is used where none is chosen.
pub const DEFAULT_WIDTH: usize = 2;

/// The n-gram widths a tokenizer accepts.
pub open spec fn valid_width(width: int) -> bool {
    MIN_WIDTH <= width <= MAX_WIDTH
}

/// Whether `width` is an accepted n-gram width.
pub fn is_valid_width(width: usize) -> (ok: bool)
    ensures
        ok == valid_width(width as int),
{
    MIN_WIDTH <= width && width <= MAX_WIDTH
}

/// The words of `ws` written one after the other with a `.` between
/// neighbours.
pub open spec fn joined(ws: Seq<Seq<char>>) -> Seq<char>
    decreases ws.len(),
{
    if ws.len() == 0 {
        Seq::empty()
    } else if ws.len() == 1 {
        ws[0]
    } else {
        joined(ws.drop_last()) + seq!['.'] + ws.last()
    }
}

/// Every window of `width` consecutive words of `ws`, from left to right.
/// Fewer than `width` words give no window.
pub open spec fn windows(ws: Seq<Seq<char>>, width: int) -> Seq<Seq<Seq<char>>> {
    if width <= 0 || ws.len() < width {
        Seq::empty()
    } else {
        Seq::new((ws.len() - width + 1) as nat, |i: int| ws.subrange(i, i + width))
    }
}

/// The n-grams of `ws`: every window of `width` consecutive words, joined
/// into one token.
pub open spec fn ngrams(ws: Seq<Seq<char>>, width: int) -> Seq<Seq<char>> {
    windows(ws, width).map_values(|window: Seq<Seq<char>>| joined(window))
}

/// The token set of the file name `name` at n-gram width `width`.
pub open spec fn tokens_of(name: Seq<char>, width: int) -> Set<Seq<char>> {
    ngrams(words(name), width).to_set()
}

/// A finite set of tokens. Inserting a token that is already present changes
/// nothing.
pub struct TokenSet {
    /// The tokens, each once, in the order of their first insertion.
    items: Vec<String>,
    /// The same tokens, for lookup.
    index: StringHashSet,
}

impl View for TokenSet {
    type V = Set<Seq<char>>;

    closed spec fn view(&self) -> Set<Seq<char>> {
        self.items.deep_view().to_set()
    }
}

/// The number of members of `items` that `other` holds.
fn count_members(items: &Vec<String>, other: &StringHashSet) -> (n: usize)
    requires
        items.deep_view().no_duplicates(),
    ensures
        n == items.deep_view().to_set().intersect(other@).len(),
{
    let ghost all = items.deep_view();
    let mut n: usize = 0;
    let mut i: usize = 0;
    proof {
        assert(all.take(0).to_set().intersect(other@) == Set::<Seq<char>>::empty());
    }
    while i < items.len()
        invariant
            all == items.deep_view(),
            all.no_duplicates(),
            i <= all.len(),
            n <= i,
            n == all.take(i as int).to_set().intersect(other@).len(),
        decreases all.len() - i,
    {
        let ghost seen = all.take(i as int);
        let hit = other.contains(items[i].as_str());
        proof {
            let x = all[i as int];
            assert(all.take(i + 1) == seen.push(x));
            seen.lemma_push_to_set_commute(x);
            seq_to_set_is_finite(seen);
            assert(!seen.to_set().contains(x)) by {
                if seen.to_set().contains(x) {
                    let k = choose|k: int| 0 <= k < seen.len() && seen[k] == x;
                    assert(all[k] == all[i as int]);
                }
            }
            let prior = seen.to_set().intersect(other@);
            lemma_len_intersect::<Seq<char>>(seen.to_set(), other@);
            if hit {
                assert(seen.to_set().insert(x).intersect(other@) == prior.insert(x));
            } else {
                assert(seen.to_set().insert(x).intersect(other@) == prior);
            }
        }
        if hit {
            n += 1;
        }
        i += 1;
    }
    assert(all.take(i as int) == all);
    n
}

impl TokenSet {
    #[verifier::type_invariant]
    spec fn consistent(&self) -> bool {
        &&& self.items.deep_view().no_duplicates()
        &&& self.index@ == self.items.deep_view().to_set()
    }

    /// A token set is finite, whatever it holds.
    pub proof fn lemma_finite(self)
        ensures
            self@.finite(),
    {
        seq_to_set_is_finite(self.items.deep_view());
    }

    /// The empty token set.
    pub fn new() -> (set: TokenSet)
        ensures
            set@ == Set::<Seq<char>>::empty(),
    {
        let items: Vec<String> = Vec::new();
        assert(items.deep_view().to_set() == Set::<Seq<char>>::empty());
        TokenSet { items, index: StringHashSet::new() }
    }

    /// The number of tokens in the set.
    pub fn len(&self) -> (n: usize)
        ensures
            self@.finite(),
            n == self@.len(),
    {
        proof {
            use_type_invariant(self);
            self.items.deep_view().unique_seq_to_set();
            seq_to_set_is_finite(self.items.deep_view());
        }
        self.items.len()
    }

    /// Whether the set holds no token.
    pub fn is_empty(&self) -> (empty: bool)
        ensures
            empty == (self@.len() == 0),
    {
        self.len() == 0
    }

    /// Whether `token` is in the set.
    pub fn contains(&self, token: &str) -> (found: bool)
        ensures
            found == self@.contains(token@),
    {
        proof {
            use_type_invariant(self);
        }
        self.index.contains(token)
    }

    /// Adds `token` to the set. Returns whether it was new.
    pub fn insert(&mut self, token: String) -> (added: bool)
        ensures
            final(self)@ == old(self)@.insert(token@),
            added == !old(self)@.contains(token@),
    {
        proof {
            use_type_invariant(&*self);
        }
        if self.index.contains(token.as_str()) {
            assert(self@.insert(token@) == self@);
            return false;
        }
        let mut taken = TokenSet::new();
        std::mem::swap(self, &mut taken);
        let TokenSet { mut items, mut index } = taken;
        let ghost before = items.deep_view();
        index.insert(token.clone());
        items.push(token);
        proof {
            assert(items.deep_view() == before.push(token@));
            before.lemma_push_to_set_commute(token@);
        }
        *self = TokenSet { items, index };
        true
    }

    /// The tokens of the set, each once, in the order in which they were
    /// first inserted.
    pub fn tokens(&self) -> (list: &Vec<String>)
        ensures
            list.deep_view().to_set() == self@,
            list.deep_view().no_duplicates(),
    {
        proof {
            use_type_invariant(self);
        }
        &self.items
    }

    /// The number of tokens that `self` and `other` have in common. The
    /// smaller set is walked and each of its tokens looked up in the other.
    pub fn common(&self, other: &TokenSet) -> (n: usize)
        ensures
            n == self@.intersect(other@).len(),
            n <= self@.len(),
            n <= other@.len(),
    {
        proof {
            use_type_invariant(self);
            use_type_invariant(other);
            self.lemma_finite();
            other.lemma_finite();
            lemma_len_intersect::<Seq<char>>(self@, other@);
            lemma_len_intersect::<Seq<char>>(other@, self@);
            assert(other@.intersect(self@) == self@.intersect(other@));
        }
        if self.items.len() <= other.items.len() {
            count_members(&self.items, &other.index)
        } else {
            count_members(&other.items, &self.index)
        }
    }
}

/// Joins the `width` words of `ws` that start at `start` with `.` between
/// them.
fn join_window(ws: &Vec<String>, start: usize, width: usize) -> (token: String)
    requires
        width >= 1,
        start + width <= ws.len(),
    ensures
        token@ == joined(ws.deep_view().subrange(start as int, start + width)),
{
    let ghost all = ws.deep_view();
    let mut token = ws[start].clone();
    let mut k: usize = 1;
    proof {
        assert(all.subrange(start as int, start + 1).len() == 1);
        assert(token@ == all[start as int]);
    }
    while k < width
        invariant
            all == ws.deep_view(),
            1 <= k <= width,
            start + width <= ws.len(),
            token@ == joined(all.subrange(start as int, start + k)),
        decreases width - k,
    {
        proof {
            reveal_strlit(".");
            let next = all.subrange(start as int, start + k + 1);
            assert(next.drop_last() == all.subrange(start as int, start + k));
            assert(next.last() == all[start + k]);
            assert("."@ == seq!['.']);
        }
        token.append(".");
        token.append(ws[start + k].as_str());
        k += 1;
    }
    token
}

/// Tokenizes the file name `name`: splits it into lowercase words and forms
/// the set of all `width`-word n-grams. A name with fewer than `width` words
/// gives the empty set.
pub fn tokenize(name: &str, width: usize) -> (set: TokenSet)
    requires
        valid_width(width as int),
    ensures
        set@ == tokens_of(name@, width as int),
{
    let ws = split_words(name);
    let mut set = TokenSet::new();
    let ghost grams = ngrams(words(name@), width as int);
    if ws.len() < width {
        assert(grams.to_set() == Set::<Seq<char>>::empty());
        return set;
    }
    let count: usize = ws.len() - width + 1;
    let mut i: usize = 0;
    proof {
        assert(grams.take(0).to_set() == Set::<Seq<char>>::empty());
    }
    while i < count
        invariant
            ws.deep_view() == words(name@),
            grams == ngrams(words(name@), width as int),
            valid_width(width as int),
            count == ws.len() - width + 1,
            i <= count,
            set@ == grams.take(i as int).to_set(),
        decreases count - i,
    {
        let token = join_window(&ws, i, width);
        proof {
            assert(grams.take(i + 1) == grams.take(i as int).push(token@));
            grams.take(i as int).lemma_push_to_set_commute(token@);
        }
        set.insert(token);
        i += 1;
    }
    assert(grams.take(i as int) == grams);
    set
}

} // verus!
