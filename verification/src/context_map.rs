//! Context map: for every window of `n` consecutive tokens, the list of
//! tokens observed immediately after that window in the corpus. The list
//! keeps duplicates — each one is a separate observation — so it doubles as
//! a frequency-weighted sampling pool for the generator.

use crate::tokenizer::Token;
use crate::tokenizer::TokenModel;
use vstd::multiset::Multiset;
use vstd::prelude::*;

verus! {

broadcast use vstd::seq_lib::group_to_multiset_ensures;

/// The window of `n` tokens starting at position `i`.
pub open spec fn window_at(toks: Seq<TokenModel>, n: nat, i: int) -> Seq<TokenModel> {
    toks.subrange(i, i + n)
}

/// `m` with the successor `t` appended to the entry for window `w`; a new
/// single-element entry if `w` is not yet a key.
pub open spec fn with_successor(
    m: Map<Seq<TokenModel>, Seq<TokenModel>>,
    w: Seq<TokenModel>,
    t: TokenModel,
) -> Map<Seq<TokenModel>, Seq<TokenModel>> {
    if m.dom().contains(w) {
        m.insert(w, m[w].push(t))
    } else {
        m.insert(w, seq![t])
    }
}

/// The context map built from the windows starting at positions `0..k`.
pub open spec fn context_map_upto(toks: Seq<TokenModel>, n: nat, k: int) -> Map<
    Seq<TokenModel>,
    Seq<TokenModel>,
>
    decreases k,
{
    if k <= 0 {
        Map::empty()
    } else {
        with_successor(
            context_map_upto(toks, n, k - 1),
            window_at(toks, n, k - 1),
            toks[k - 1 + n],
        )
    }
}

/// The context map of a token sequence for window size `n`: every position
/// `i` at which both the full window `toks[i..i+n]` and the successor
/// `toks[i+n]` exist contributes that successor to the window's entry.
pub open spec fn context_map_of(toks: Seq<TokenModel>, n: nat) -> Map<
    Seq<TokenModel>,
    Seq<TokenModel>,
> {
    context_map_upto(toks, n, toks.len() - n)
}

/// At how many of the positions `0..k` the window `w` is followed by `t`.
pub open spec fn succ_count_upto(
    toks: Seq<TokenModel>,
    n: nat,
    w: Seq<TokenModel>,
    t: TokenModel,
    k: int,
) -> nat
    decreases k,
{
    if k <= 0 {
        0
    } else {
        succ_count_upto(toks, n, w, t, k - 1) + (if window_at(toks, n, k - 1) == w && toks[k - 1
            + n] == t {
            1 as nat
        } else {
            0 as nat
        })
    }
}

/// At how many positions of the whole token sequence the window `w` is
/// followed by `t`.
pub open spec fn succ_count(toks: Seq<TokenModel>, n: nat, w: Seq<TokenModel>, t: TokenModel) -> nat {
    succ_count_upto(toks, n, w, t, toks.len() - n)
}

proof fn lemma_upto_wf(toks: Seq<TokenModel>, n: nat, k: int)
    requires
        k <= toks.len() - n,
    ensures
        forall|w: Seq<TokenModel>| #[trigger]
            context_map_upto(toks, n, k).dom().contains(w) ==> w.len() == n && context_map_upto(
                toks,
                n,
                k,
            )[w].len() >= 1,
    decreases k,
{
    if k <= 0 {
    } else {
        lemma_upto_wf(toks, n, k - 1);
        let prev = context_map_upto(toks, n, k - 1);
        let wk = window_at(toks, n, k - 1);
        let m = context_map_upto(toks, n, k);
        assert(wk.len() == n);
        assert forall|w: Seq<TokenModel>| #[trigger] m.dom().contains(w) implies w.len() == n
            && m[w].len() >= 1 by {
            if w == wk {
                if prev.dom().contains(wk) {
                    assert(m[w] == prev[wk].push(toks[k - 1 + n]));
                } else {
                    assert(m[w] == seq![toks[k - 1 + n]]);
                }
            } else {
                assert(prev.dom().contains(w));
                assert(m[w] == prev[w]);
            }
        }
    }
}

/// Every key of a context map is a full window of exactly `n` tokens, and
/// every entry holds at least one observed successor.
pub proof fn lemma_context_map_wf(toks: Seq<TokenModel>, n: nat)
    ensures
        forall|w: Seq<TokenModel>| #[trigger]
            context_map_of(toks, n).dom().contains(w) ==> w.len() == n && context_map_of(
                toks,
                n,
            )[w].len() >= 1,
{
    lemma_upto_wf(toks, n, toks.len() - n);
}

/// A token sequence too short to hold a window and a successor has an
/// empty context map.
pub proof fn lemma_context_map_short(toks: Seq<TokenModel>, n: nat)
    requires
        toks.len() <= n,
    ensures
        context_map_of(toks, n) == Map::<Seq<TokenModel>, Seq<TokenModel>>::empty(),
{
}

proof fn lemma_upto_count(toks: Seq<TokenModel>, n: nat, w: Seq<TokenModel>, t: TokenModel, k: int)
    requires
        k <= toks.len() - n,
    ensures
        context_map_upto(toks, n, k).dom().contains(w) ==> context_map_upto(
            toks,
            n,
            k,
        )[w].to_multiset().count(t) == succ_count_upto(toks, n, w, t, k),
        !context_map_upto(toks, n, k).dom().contains(w) ==> succ_count_upto(toks, n, w, t, k) == 0,
    decreases k,
{
    if k <= 0 {
    } else {
        lemma_upto_count(toks, n, w, t, k - 1);
        let prev = context_map_upto(toks, n, k - 1);
        let wk = window_at(toks, n, k - 1);
        let tk = toks[k - 1 + n];
        if wk == w {
            if prev.dom().contains(w) {
                assert(prev[w].push(tk).to_multiset() =~= prev[w].to_multiset().insert(tk));
            } else {
                assert(seq![tk] =~= Seq::<TokenModel>::empty().push(tk));
                assert(seq![tk].to_multiset() =~= Multiset::<TokenModel>::empty().insert(tk));
            }
        }
    }
}

/// The context map preserves observation counts exactly: a window `w` that
/// occurs with a successor is a key, and its entry holds each successor `t`
/// as many times as `t` follows `w` in the token sequence.
pub proof fn lemma_context_map_multiplicity(
    toks: Seq<TokenModel>,
    n: nat,
    w: Seq<TokenModel>,
    t: TokenModel,
)
    ensures
        context_map_of(toks, n).dom().contains(w) ==> context_map_of(
            toks,
            n,
        )[w].to_multiset().count(t) == succ_count(toks, n, w, t),
        !context_map_of(toks, n).dom().contains(w) ==> succ_count(toks, n, w, t) == 0,
{
    lemma_upto_count(toks, n, w, t, toks.len() - n);
}

proof fn lemma_succ_count_pos(toks: Seq<TokenModel>, n: nat, i: int, k: int)
    requires
        0 <= i < k,
        k <= toks.len() - n,
    ensures
        succ_count_upto(toks, n, window_at(toks, n, i), toks[i + n], k) >= 1,
    decreases k,
{
    if k - 1 == i {
    } else {
        lemma_succ_count_pos(toks, n, i, k - 1);
    }
}

/// Every full window followed by one more token is a key of the context
/// map, and its entry contains that successor.
pub proof fn lemma_context_map_window(toks: Seq<TokenModel>, n: nat, i: int)
    requires
        0 <= i,
        i + n < toks.len(),
    ensures
        context_map_of(toks, n).dom().contains(window_at(toks, n, i)),
        context_map_of(toks, n)[window_at(toks, n, i)].contains(toks[i + n]),
{
    let w = window_at(toks, n, i);
    let t = toks[i + n];
    lemma_succ_count_pos(toks, n, i, toks.len() - n);
    lemma_context_map_multiplicity(toks, n, w, t);
    assert(context_map_of(toks, n).dom().contains(w));
    assert(context_map_of(toks, n)[w].to_multiset().count(t) >= 1);
}

fn token_eq(a: &Token, b: &Token) -> (r: bool)
    ensures
        r == (a@ == b@),
{
    match (a, b) {
        (Token::Word(x), Token::Word(y)) => *x == *y,
        (Token::Number(x), Token::Number(y)) => *x == *y,
        (Token::Symbol(x), Token::Symbol(y)) => *x == *y,
        (Token::Punctuation(x), Token::Punctuation(y)) => *x == *y,
        (Token::Whitespace(x), Token::Whitespace(y)) => *x == *y,
        _ => false,
    }
}

fn tokens_eq(a: &Vec<Token>, b: &Vec<Token>) -> (r: bool)
    ensures
        r == (a.deep_view() == b.deep_view()),
{
    if a.len() != b.len() {
        proof {
            assert(a.deep_view().len() == a@.len());
            assert(b.deep_view().len() == b@.len());
        }
        return false;
    }
    let mut k: usize = 0;
    while k < a.len()
        invariant
            a@.len() == b@.len(),
            k <= a@.len(),
            forall|m: int| 0 <= m < k ==> a.deep_view()[m] == b.deep_view()[m],
        decreases a@.len() - k,
    {
        if !token_eq(&a[k], &b[k]) {
            proof {
                assert(a.deep_view()[k as int] == a@[k as int]@);
                assert(b.deep_view()[k as int] == b@[k as int]@);
            }
            return false;
        }
        proof {
            assert(a.deep_view()[k as int] == a@[k as int]@);
            assert(b.deep_view()[k as int] == b@[k as int]@);
        }
        k += 1;
    }
    proof {
        assert(a.deep_view() =~= b.deep_view());
    }
    true
}

/// The window-to-successors mapping, stored as a list of entries with
/// pairwise distinct keys.
pub struct ContextMap {
    entries: Vec<(Vec<Token>, Vec<Token>)>,
}

impl View for ContextMap {
    type V = Map<Seq<TokenModel>, Seq<TokenModel>>;

    closed spec fn view(&self) -> Map<Seq<TokenModel>, Seq<TokenModel>> {
        Map::new(
            |w: Seq<TokenModel>| self.has_key(w),
            |w: Seq<TokenModel>| self.entries@[self.index_of(w)].1.deep_view(),
        )
    }
}

impl ContextMap {
    spec fn has_key(&self, w: Seq<TokenModel>) -> bool {
        exists|p: int| 0 <= p < self.entries@.len() && self.entries@[p].0.deep_view() == w
    }

    spec fn index_of(&self, w: Seq<TokenModel>) -> int {
        choose|p: int| 0 <= p < self.entries@.len() && self.entries@[p].0.deep_view() == w
    }

    /// The entry keys are pairwise distinct, so each window has one list.
    pub closed spec fn wf(&self) -> bool {
        forall|p: int, q: int|
            0 <= p < q < self.entries@.len() ==> self.entries@[p].0.deep_view()
                != self.entries@[q].0.deep_view()
    }

    /// How many windows are keys of the map.
    pub closed spec fn spec_num_keys(&self) -> nat {
        self.entries@.len()
    }

    proof fn lemma_key_at(&self, p: int)
        requires
            self.wf(),
            0 <= p < self.entries@.len(),
        ensures
            self@.dom().contains(self.entries@[p].0.deep_view()),
            self@[self.entries@[p].0.deep_view()] == self.entries@[p].1.deep_view(),
    {
        let w = self.entries@[p].0.deep_view();
        assert(self.has_key(w));
        let q = self.index_of(w);
        assert(q == p);
    }

    /// An empty map.
    pub fn new() -> (r: Self)
        ensures
            r@ == Map::<Seq<TokenModel>, Seq<TokenModel>>::empty(),
            r.wf(),
            r.spec_num_keys() == 0,
    {
        let r = ContextMap { entries: Vec::new() };
        proof {
            assert(r@ =~= Map::<Seq<TokenModel>, Seq<TokenModel>>::empty());
        }
        r
    }

    /// How many windows are keys of the map; zero exactly when the map is
    /// empty.
    pub fn num_keys(&self) -> (r: usize)
        requires
            self.wf(),
        ensures
            r == self.spec_num_keys(),
            (r == 0) <==> self@.dom() =~= Set::<Seq<TokenModel>>::empty(),
    {
        proof {
            if self.entries@.len() > 0 {
                self.lemma_key_at(0);
            }
        }
        self.entries.len()
    }

    /// The key at one position of the entry list, for choosing a starting
    /// window.
    pub fn key_at(&self, idx: usize) -> (k: &Vec<Token>)
        requires
            self.wf(),
            idx < self.spec_num_keys(),
        ensures
            self@.dom().contains(k.deep_view()),
    {
        proof {
            self.lemma_key_at(idx as int);
        }
        &self.entries[idx].0
    }

    fn find_key(&self, key: &Vec<Token>) -> (r: Option<usize>)
        ensures
            match r {
                Some(p) => p < self.entries@.len() && self.entries@[p as int].0.deep_view()
                    == key.deep_view(),
                None => !self.has_key(key.deep_view()),
            },
    {
        let mut p: usize = 0;
        while p < self.entries.len()
            invariant
                p <= self.entries@.len(),
                forall|q: int| 0 <= q < p ==> self.entries@[q].0.deep_view() != key.deep_view(),
            decreases self.entries@.len() - p,
        {
            if tokens_eq(&self.entries[p].0, key) {
                return Some(p);
            }
            p += 1;
        }
        None
    }

    /// The successor list recorded for a window, if the window is a key.
    pub fn get(&self, key: &Vec<Token>) -> (r: Option<&Vec<Token>>)
        requires
            self.wf(),
        ensures
            match r {
                Some(v) => self@.dom().contains(key.deep_view()) && v.deep_view()
                    == self@[key.deep_view()],
                None => !self@.dom().contains(key.deep_view()),
            },
    {
        match self.find_key(key) {
            Some(p) => {
                proof {
                    self.lemma_key_at(p as int);
                }
                Some(&self.entries[p].1)
            },
            None => None,
        }
    }

    /// Record one more observed successor for a window.
    pub fn insert_successor(&mut self, key: Vec<Token>, succ: Token)
        requires
            old(self).wf(),
        ensures
            final(self).wf(),
            final(self)@ == with_successor(old(self)@, key.deep_view(), succ@),
    {
        let ghost kv = key.deep_view();
        let ghost sv = succ@;
        match self.find_key(&key) {
            Some(p) => {
                let ghost pre = self.entries@[p as int].1.deep_view();
                let mut pair = self.entries.remove(p);
                pair.1.push(succ);
                let ghost pr = pair;
                proof {
                    assert forall|m: int| 0 <= m < pr.1.deep_view().len() implies pr.1.deep_view()[m]
                        == pre.push(sv)[m] by {
                        if m < pre.len() {
                            assert(pr.1@[m] == old(self).entries@[p as int].1@[m]);
                        }
                    }
                    assert(pr.1.deep_view() =~= pre.push(sv));
                }
                self.entries.insert(p, pair);
                proof {
                    let es0 = old(self).entries@;
                    let es1 = self.entries@;
                    assert(es1 =~= es0.remove(p as int).insert(p as int, pr));
                    assert forall|q: int| 0 <= q < es0.len() && q != p implies es1[q] == es0[q] by {
                        if q < p {
                            assert(es0.remove(p as int)[q] == es0[q]);
                        } else {
                            assert(es0.remove(p as int)[q - 1] == es0[q]);
                        }
                    }
                    assert(es1[p as int] == pr);
                    self.lemma_insert_found(*old(self), p as int, kv, sv);
                }
            },
            None => {
                proof {
                    assert(!old(self).has_key(kv));
                }
                let mut fresh: Vec<Token> = Vec::new();
                push_token_vec(&mut fresh, succ);
                proof {
                    assert(fresh.deep_view() =~= seq![sv]);
                }
                self.entries.push((key, fresh));
                proof {
                    self.lemma_insert_fresh(*old(self), kv, sv);
                }
            },
        }
    }

    proof fn lemma_insert_found(&self, prev: Self, p: int, kv: Seq<TokenModel>, sv: TokenModel)
        requires
            prev.wf(),
            0 <= p < prev.entries@.len(),
            self.entries@.len() == prev.entries@.len(),
            forall|q: int| 0 <= q < prev.entries@.len() && q != p ==> self.entries@[q]
                == prev.entries@[q],
            prev.entries@[p].0.deep_view() == kv,
            self.entries@[p].0.deep_view() == kv,
            self.entries@[p].1.deep_view() == prev.entries@[p].1.deep_view().push(sv),
        ensures
            self.wf(),
            self@ == with_successor(prev@, kv, sv),
    {
        let len = prev.entries@.len() as int;
        assert forall|a: int, b: int| 0 <= a < b < len implies self.entries@[a].0.deep_view()
            != self.entries@[b].0.deep_view() by {
            assert(prev.entries@[a].0.deep_view() != prev.entries@[b].0.deep_view());
            if a != p {
                assert(self.entries@[a].0.deep_view() == prev.entries@[a].0.deep_view());
            }
            if b != p {
                assert(self.entries@[b].0.deep_view() == prev.entries@[b].0.deep_view());
            }
        }
        prev.lemma_key_at(p);
        let target = with_successor(prev@, kv, sv);
        assert forall|w: Seq<TokenModel>| self.has_key(w) <==> prev.has_key(w) by {
            if self.has_key(w) {
                let q = choose|q: int|
                    0 <= q < self.entries@.len() && self.entries@[q].0.deep_view() == w;
                if q == p {
                    assert(prev.entries@[p].0.deep_view() == w);
                } else {
                    assert(prev.entries@[q].0.deep_view() == w);
                }
                assert(prev.has_key(w));
            }
            if prev.has_key(w) {
                let q = choose|q: int|
                    0 <= q < prev.entries@.len() && prev.entries@[q].0.deep_view() == w;
                if q == p {
                    assert(self.entries@[p].0.deep_view() == w);
                } else {
                    assert(self.entries@[q].0.deep_view() == w);
                }
                assert(self.has_key(w));
            }
        }
        assert forall|w: Seq<TokenModel>| #[trigger] target.dom().contains(w) implies
            self@.dom().contains(w) && self@[w] == target[w] by {
            if w == kv {
                self.lemma_key_at(p);
            } else {
                let q = choose|q: int|
                    0 <= q < prev.entries@.len() && prev.entries@[q].0.deep_view() == w;
                prev.lemma_key_at(q);
                assert(q != p);
                assert(self.entries@[q] == prev.entries@[q]);
                self.lemma_key_at(q);
            }
        }
        assert forall|w: Seq<TokenModel>| #[trigger] self@.dom().contains(w) implies
            target.dom().contains(w) by {
            assert(prev.has_key(w));
            let q = choose|q: int|
                0 <= q < prev.entries@.len() && prev.entries@[q].0.deep_view() == w;
            prev.lemma_key_at(q);
        }
        assert(self@ =~= target);
    }

    proof fn lemma_insert_fresh(&self, prev: Self, kv: Seq<TokenModel>, sv: TokenModel)
        requires
            prev.wf(),
            !prev.has_key(kv),
            self.entries@.len() == prev.entries@.len() + 1,
            forall|q: int| 0 <= q < prev.entries@.len() ==> self.entries@[q] == prev.entries@[q],
            self.entries@[prev.entries@.len() as int].0.deep_view() == kv,
            self.entries@[prev.entries@.len() as int].1.deep_view() == seq![sv],
        ensures
            self.wf(),
            self@ == with_successor(prev@, kv, sv),
    {
        let len = prev.entries@.len() as int;
        assert forall|a: int, b: int| 0 <= a < b < self.entries@.len() implies
            self.entries@[a].0.deep_view() != self.entries@[b].0.deep_view() by {
            assert(self.entries@[a].0.deep_view() == prev.entries@[a].0.deep_view());
            if b < len {
                assert(self.entries@[b].0.deep_view() == prev.entries@[b].0.deep_view());
            } else {
                assert(self.entries@[b].0.deep_view() == kv);
                assert(prev.has_key(kv) || prev.entries@[a].0.deep_view() != kv);
            }
        }
        let target = with_successor(prev@, kv, sv);
        assert(!prev@.dom().contains(kv));
        assert forall|w: Seq<TokenModel>| #[trigger] target.dom().contains(w) implies
            self@.dom().contains(w) && self@[w] == target[w] by {
            if w == kv {
                self.lemma_key_at(len);
            } else {
                assert(prev.has_key(w));
                let q = choose|q: int|
                    0 <= q < prev.entries@.len() && prev.entries@[q].0.deep_view() == w;
                prev.lemma_key_at(q);
                assert(self.entries@[q] == prev.entries@[q]);
                self.lemma_key_at(q);
            }
        }
        assert forall|w: Seq<TokenModel>| #[trigger] self@.dom().contains(w) implies
            target.dom().contains(w) by {
            let q = choose|q: int|
                0 <= q < self.entries@.len() && self.entries@[q].0.deep_view() == w;
            if q < len {
                assert(prev.entries@[q].0.deep_view() == w);
                prev.lemma_key_at(q);
            }
        }
        assert(self@ =~= target);
    }
}

fn push_token_vec(tokens: &mut Vec<Token>, t: Token)
    ensures
        final(tokens).deep_view() == old(tokens).deep_view().push(t@),
{
    let ghost pre = tokens.deep_view();
    let ghost tv = t@;
    tokens.push(t);
    proof {
        assert forall|k: int| 0 <= k < tokens.deep_view().len() implies tokens.deep_view()[k]
            == pre.push(tv)[k] by {
            if k < pre.len() {
                assert(tokens@[k] == old(tokens)@[k]);
            } else {
                assert(tokens@[k] == t);
            }
        }
        assert(tokens.deep_view() =~= pre.push(tv));
    }
}

} // verus!
