//! Generator: a bounded random walk over the context map. Starting from a
//! randomly chosen window, it repeatedly samples one of the successors
//! observed after the trailing window, until the target length is reached
//! or the trailing window has no entry (a dead end), then renders the
//! walked tokens back to text.

use crate::context_map::context_map_of;
use crate::context_map::ContextMap;
use crate::text_db::truncate_text;
use crate::text_db::TextDB;
use crate::tokenizer::concat_texts;
use crate::tokenizer::token_text;
use crate::tokenizer::tokenize_text;
use crate::tokenizer::Token;
use crate::tokenizer::TokenModel;
use vstd::prelude::*;

verus! {

/// What can go wrong while building a model. Reading a source text can
/// fail, which surfaces as `DatabaseError`. Tokenization is total and
/// never fails: `TokenizationError` exists only for forward compatibility
/// and is never produced.
#[derive(Debug)]
pub enum MessageGenError {
    TokenizationError(String),
    DatabaseError(String),
}

/// a context size of 2 words
pub const LOW_PRECISION: usize = 2;

/// a context size of 4 words
pub const MED_PRECISION: usize = 4;

/// a context size of 8 words
pub const HIGH_PRECISION: usize = 8;

/// Relies on `rand::Rng::gen_range` over `rand::thread_rng`: a uniformly
/// random value in `[0, bound)`. Nothing is assumed of the result beyond
/// its range; the empty range, on which `gen_range` panics, is excluded.
#[verifier::external_body]
fn random_below(bound: usize) -> (r: usize)
    requires
        bound > 0,
    ensures
        r < bound,
{
    rand::Rng::gen_range(&mut rand::thread_rng(), 0..bound)
}

/// A map with no keys at all.
pub open spec fn map_is_empty(m: Map<Seq<TokenModel>, Seq<TokenModel>>) -> bool {
    forall|w: Seq<TokenModel>| !m.dom().contains(w)
}

/// The larger of a target length and the window size: how many tokens a
/// walk emits when it never hits a dead end.
pub open spec fn walk_cap(len: nat, n: nat) -> int {
    if len >= n {
        len as int
    } else {
        n as int
    }
}

/// The token sequences that generation can produce over map `m` with
/// window size `n` and target length `len`. The walk is empty when the map
/// is empty. Otherwise it opens with a key of the map; each later token is
/// one of the observed successors of the window of `n` tokens just before
/// it; and the walk stops only at the target length or at a trailing
/// window that is not a key (a dead end).
pub open spec fn valid_walk(
    m: Map<Seq<TokenModel>, Seq<TokenModel>>,
    n: nat,
    len: nat,
    out: Seq<TokenModel>,
) -> bool {
    if map_is_empty(m) {
        out.len() == 0
    } else {
        &&& out.len() >= n
        &&& m.dom().contains(out.subrange(0, n as int))
        &&& forall|k: int|
            n <= k < out.len() ==> m.dom().contains(#[trigger] out.subrange(k - n, k))
                && m[out.subrange(k - n, k)].contains(out[k])
        &&& out.len() <= walk_cap(len, n)
        &&& out.len() < walk_cap(len, n) ==> !m.dom().contains(
            out.subrange(out.len() - n, out.len() as int),
        )
    }
}

proof fn lemma_concat_texts_snoc(ts: Seq<TokenModel>, x: TokenModel)
    ensures
        concat_texts(ts.push(x)) == concat_texts(ts) + token_text(x),
    decreases ts.len(),
{
    if ts.len() == 0 {
        let p = ts.push(x);
        assert(p.len() == 1);
        assert(p[0] == x);
        assert(p.drop_first() =~= Seq::<TokenModel>::empty());
        assert(concat_texts(p) == token_text(p[0]) + concat_texts(p.drop_first()));
        assert(concat_texts(p.drop_first()) == Seq::<char>::empty());
        assert(concat_texts(ts) == Seq::<char>::empty());
        assert(concat_texts(p) =~= concat_texts(ts) + token_text(x));
    } else {
        assert(ts.push(x).drop_first() =~= ts.drop_first().push(x));
        lemma_concat_texts_snoc(ts.drop_first(), x);
        assert(concat_texts(ts.push(x)) == token_text(ts[0]) + (concat_texts(ts.drop_first())
            + token_text(x)));
        assert(token_text(ts[0]) + (concat_texts(ts.drop_first()) + token_text(x)) =~= (token_text(
            ts[0],
        ) + concat_texts(ts.drop_first())) + token_text(x));
    }
}

/// Concatenates the surface texts of the tokens, in order, with no added
/// separators.
fn render(tokens: &Vec<Token>) -> (r: String)
    ensures
        r@ == concat_texts(tokens.deep_view()),
{
    let mut s = String::new();
    let mut i: usize = 0;
    proof {
        assert(tokens.deep_view().take(0) =~= Seq::<TokenModel>::empty());
    }
    while i < tokens.len()
        invariant
            i <= tokens@.len(),
            s@ == concat_texts(tokens.deep_view().take(i as int)),
        decreases tokens@.len() - i,
    {
        let piece = tokens[i].to_string();
        s.append(piece.as_str());
        i += 1;
        proof {
            lemma_concat_texts_snoc(tokens.deep_view().take(i - 1), tokens.deep_view()[i - 1]);
            assert(tokens.deep_view().take(i as int) =~= tokens.deep_view().take(i - 1).push(
                tokens.deep_view()[i - 1],
            ));
            assert(tokens.deep_view()[i - 1] == tokens@[i - 1].deep_view());
        }
    }
    proof {
        assert(tokens.deep_view().take(tokens@.len() as int) =~= tokens.deep_view());
    }
    s
}

fn clone_tokens(v: &Vec<Token>) -> (r: Vec<Token>)
    ensures
        r.deep_view() == v.deep_view(),
{
    let total = v.len();
    let mut r: Vec<Token> = Vec::new();
    let mut k: usize = 0;
    proof {
        assert(r.deep_view() =~= v.deep_view().take(0));
    }
    while k < total
        invariant
            total == v@.len(),
            k <= total,
            r.deep_view() == v.deep_view().take(k as int),
        decreases total - k,
    {
        let ghost pre = r.deep_view();
        let ghost prev_raw = r@;
        let tok = v[k].clone();
        let ghost tok_view = tok@;
        r.push(tok);
        k += 1;
        proof {
            assert forall|m: int| 0 <= m < r.deep_view().len() implies r.deep_view()[m]
                == pre.push(tok_view)[m] by {
                if m < pre.len() {
                    assert(r@[m] == prev_raw[m]);
                }
            }
            assert(r.deep_view() =~= pre.push(tok_view));
            assert(v.deep_view()[k - 1] == v@[k - 1].deep_view());
            assert(r.deep_view() =~= v.deep_view().take(k as int));
        }
    }
    proof {
        assert(v.deep_view().take(total as int) =~= v.deep_view());
    }
    r
}

/// A message generator: the text database to learn from, and the number of
/// tokens a generated message aims for.
pub struct MessageGenerator {
    /// the database containing the reference text
    db: TextDB,
    /// the number of tokens used to compose a message
    message_len: usize,
}

impl MessageGenerator {
    /// The database the generator walks over.
    pub closed spec fn spec_db(&self) -> TextDB {
        self.db
    }

    /// The number of tokens a generated message aims for.
    pub closed spec fn spec_message_len(&self) -> usize {
        self.message_len
    }

    /// A generator over the given database. The database keeps the window
    /// size it was built with; `context` is accepted for symmetry with
    /// `from_string` and not consulted.
    #[allow(unused_variables)]
    pub fn new(db: TextDB, context: usize, message_len: usize) -> (r: Self)
        ensures
            r.spec_db() == db,
            r.spec_message_len() == message_len,
    {
        MessageGenerator { db, message_len }
    }

    /// A generator over the given text: the text, truncated to the corpus
    /// ceiling, indexed with window size `context`.
    pub fn from_string(string: String, context: usize, message_len: usize) -> (r: Self)
        requires
            context >= 1,
        ensures
            r.spec_db()@ == truncate_text(string@),
            r.spec_db().spec_context_size() == context,
            r.spec_message_len() == message_len,
    {
        let db = TextDB::new(string, context);
        Self::new(db, context, message_len)
    }

    /// Feeds a new text fragment into the database and optionally adopts a
    /// new window size and a new message length. Never fails.
    pub fn update(
        &mut self,
        fragment: &str,
        context_size: Option<usize>,
        message_len: Option<usize>,
    )
        requires
            old(self).spec_db().spec_context_size() >= 1,
            match context_size {
                Some(c) => c >= 1,
                None => true,
            },
        ensures
            final(self).spec_db()@ == truncate_text(old(self).spec_db()@ + fragment@),
            final(self).spec_db().spec_context_size() == (match context_size {
                Some(c) => c,
                None => old(self).spec_db().spec_context_size(),
            }),
            final(self).spec_message_len() == (match message_len {
                Some(l) => l,
                None => old(self).spec_message_len(),
            }),
    {
        let n = match context_size {
            Some(c) => c,
            None => self.db.context_size(),
        };
        if let Some(l) = message_len {
            self.message_len = l;
        }
        self.db.update(fragment, n);
    }

    fn generate_message(db: &TextDB, len: usize) -> (r: String)
        requires
            db.spec_context_size() >= 1,
        ensures
            exists|out: Seq<TokenModel>|
                valid_walk(
                    context_map_of(tokenize_text(db@), db.spec_context_size() as nat),
                    db.spec_context_size() as nat,
                    len as nat,
                    out,
                ) && r@ == concat_texts(out),
    {
        let map = db.get_context_map();
        let n = db.context_size();
        let ghost m = map@;
        let ghost nn = n as nat;
        let ghost cap = walk_cap(len as nat, nn);
        proof {
            crate::context_map::lemma_context_map_wf(tokenize_text(db@), nn);
        }
        let num = map.num_keys();
        if num == 0 {
            let r = String::new();
            proof {
                assert(map_is_empty(m));
                let out = Seq::<TokenModel>::empty();
                assert(valid_walk(m, nn, len as nat, out));
                assert(r@ == concat_texts(out));
            }
            return r;
        }
        let idx = random_below(num);
        let start = map.key_at(idx);
        let mut tokens: Vec<Token> = clone_tokens(start);
        let mut window: Vec<Token> = clone_tokens(start);
        proof {
            assert(m.dom().contains(start.deep_view()));
            assert(start.deep_view().len() == nn);
            assert(tokens.deep_view().subrange(0, nn as int) =~= start.deep_view());
            assert(tokens.deep_view().subrange(
                tokens.deep_view().len() - nn as int,
                tokens.deep_view().len() as int,
            ) =~= window.deep_view());
            assert(!map_is_empty(m));
        }
        let steps: usize = if len > n {
            len - n
        } else {
            0
        };
        let mut s: usize = 0;
        while s < steps
            invariant
                map.wf(),
                m == map@,
                nn == n as nat,
                nn >= 1,
                m == context_map_of(tokenize_text(db@), db.spec_context_size() as nat),
                nn == db.spec_context_size() as nat,
                steps == (if len > n {
                    len - n
                } else {
                    0
                }),
                cap == walk_cap(len as nat, nn),
                cap == n as int + steps as int,
                s <= steps,
                forall|w: Seq<TokenModel>| #[trigger]
                    m.dom().contains(w) ==> w.len() == nn && m[w].len() >= 1,
                !map_is_empty(m),
                tokens.deep_view().len() == nn + s as nat,
                m.dom().contains(tokens.deep_view().subrange(0, nn as int)),
                forall|k: int|
                    nn <= k < tokens.deep_view().len() ==> m.dom().contains(
                        #[trigger] tokens.deep_view().subrange(k - nn, k),
                    ) && m[tokens.deep_view().subrange(k - nn, k)].contains(tokens.deep_view()[k]),
                window.deep_view() == tokens.deep_view().subrange(
                    tokens.deep_view().len() - nn as int,
                    tokens.deep_view().len() as int,
                ),
            decreases steps - s,
        {
            let found = map.get(&window);
            match found {
                None => {
                    let r = render(&tokens);
                    proof {
                        let out = tokens.deep_view();
                        assert(out.len() < cap);
                        assert(!m.dom().contains(out.subrange(out.len() - nn as int, out.len() as int)));
                        assert(valid_walk(m, nn, len as nat, out));
                    }
                    return r;
                },
                Some(succs) => {
                    proof {
                        assert(m.dom().contains(window.deep_view()));
                        assert(succs.deep_view() == m[window.deep_view()]);
                        assert(succs.deep_view().len() >= 1);
                        assert(succs@.len() == succs.deep_view().len());
                    }
                    let j = random_below(succs.len());
                    let next = succs[j].clone();
                    let ghost old_tokens = tokens.deep_view();
                    let ghost old_window = window.deep_view();
                    let ghost nv = next@;
                    proof {
                        assert(succs.deep_view()[j as int] == succs@[j as int].deep_view());
                        assert(m[old_window].contains(nv));
                    }
                    let next2 = next.clone();
                    let ghost prev_tok_raw = tokens@;
                    tokens.push(next);
                    window.remove(0);
                    let ghost mid_window_raw = window@;
                    window.push(next2);
                    s += 1;
                    proof {
                        let tv = tokens.deep_view();
                        assert forall|q: int| 0 <= q < tv.len() implies tv[q] == old_tokens.push(
                            nv,
                        )[q] by {
                            if q < old_tokens.len() {
                                assert(tokens@[q] == prev_tok_raw[q]);
                            }
                        }
                        assert(tv =~= old_tokens.push(nv));
                        let wv = window.deep_view();
                        assert forall|q: int| 0 <= q < wv.len() implies wv[q] == tv.subrange(
                            tv.len() - nn as int,
                            tv.len() as int,
                        )[q] by {
                            if q < nn - 1 {
                                assert(window@[q] == mid_window_raw[q]);
                                assert(wv[q] == old_window[q + 1]);
                                assert(old_window[q + 1] == old_tokens[old_tokens.len() - nn + q
                                    + 1]);
                            } else {
                                assert(window@[q] == next2);
                            }
                        }
                        assert(wv =~= tv.subrange(tv.len() - nn as int, tv.len() as int));
                        assert forall|k: int|
                            nn <= k < tv.len() implies m.dom().contains(
                            #[trigger] tv.subrange(k - nn, k),
                        ) && m[tv.subrange(k - nn, k)].contains(tv[k]) by {
                            if k < old_tokens.len() {
                                assert(tv.subrange(k - nn, k) =~= old_tokens.subrange(k - nn, k));
                                assert(tv[k] == old_tokens[k]);
                            } else {
                                assert(tv.subrange(k - nn, k) =~= old_window);
                                assert(tv[k] == nv);
                            }
                        }
                        assert(tv.subrange(0, nn as int) =~= old_tokens.subrange(0, nn as int));
                    }
                },
            }
        }
        let r = render(&tokens);
        proof {
            let out = tokens.deep_view();
            assert(out.len() == cap);
            assert(valid_walk(m, nn, len as nat, out));
        }
        r
    }

    /// Generates one message: a random walk over the current context map,
    /// rendered back to text. Never fails; a dead end or an empty map only
    /// shortens the message.
    pub fn next_message(&self) -> (r: String)
        requires
            self.spec_db().spec_context_size() >= 1,
        ensures
            exists|out: Seq<TokenModel>|
                valid_walk(
                    context_map_of(
                        tokenize_text(self.spec_db()@),
                        self.spec_db().spec_context_size() as nat,
                    ),
                    self.spec_db().spec_context_size() as nat,
                    self.spec_message_len() as nat,
                    out,
                ) && r@ == concat_texts(out),
    {
        Self::generate_message(&self.db, self.message_len)
    }
}

proof fn lemma_const_key(key: Seq<TokenModel>, t: TokenModel, i: int)
    requires
        key.len() >= 1,
        key.drop_first().push(t) == key,
        0 <= i < key.len(),
    ensures
        key[i] == t,
    decreases key.len() - i,
{
    if i == key.len() - 1 {
        assert(key[i] == key.drop_first().push(t)[i]);
    } else {
        lemma_const_key(key, t, i + 1);
        assert(key[i] == key.drop_first().push(t)[i]);
        assert(key.drop_first().push(t)[i] == key.drop_first()[i]);
        assert(key.drop_first()[i] == key[i + 1]);
    }
}

/// With exactly one key mapping to a single successor, generation is
/// deterministic: every walk opens with that key, every later token is
/// that sole successor, and the walk runs to the full target length when
/// sliding the key by its successor yields the key again (the key is then
/// one repeated token), and stops right after the first successor
/// otherwise (the slid window is a dead end).
pub proof fn lemma_singleton_walk(
    m: Map<Seq<TokenModel>, Seq<TokenModel>>,
    n: nat,
    len: nat,
    key: Seq<TokenModel>,
    t: TokenModel,
    out: Seq<TokenModel>,
)
    requires
        m.dom() =~= set![key],
        m[key] == seq![t],
        key.len() == n,
        n >= 1,
        len > n,
        valid_walk(m, n, len, out),
    ensures
        out.subrange(0, n as int) == key,
        forall|k: int| n <= k < out.len() ==> out[k] == t,
        key.drop_first().push(t) == key ==> out.len() == len,
        key.drop_first().push(t) != key ==> out.len() == n + 1,
{
    assert(m.dom().contains(key));
    assert(!map_is_empty(m));
    assert(walk_cap(len, n) == len);
    assert(out.subrange(0, n as int) == key) by {
        assert(m.dom().contains(out.subrange(0, n as int)));
        assert(set![key].contains(out.subrange(0, n as int)));
    }
    assert forall|k: int| n <= k < out.len() implies out[k] == t by {
        assert(m.dom().contains(out.subrange(k - n, k)));
        assert(set![key].contains(out.subrange(k - n, k)));
        assert(out.subrange(k - n, k) == key);
        assert(m[key].contains(out[k]));
        let j = choose|j: int| 0 <= j < seq![t].len() && seq![t][j] == out[k];
        assert(seq![t][0] == t);
    }
    assert forall|i: int| 0 <= i < n implies out[i] == key[i] by {
        assert(out.subrange(0, n as int)[i] == out[i]);
    }
    if key.drop_first().push(t) == key {
        assert forall|i: int| 0 <= i < n implies key[i] == t by {
            lemma_const_key(key, t, i);
        }
        assert forall|i: int| 0 <= i < out.len() implies out[i] == t by {
            if i < n {
            }
        }
        if out.len() < len {
            let trailing = out.subrange(out.len() - n, out.len() as int);
            assert forall|i: int| 0 <= i < n implies trailing[i] == key[i] by {
                assert(trailing[i] == out[out.len() - n + i]);
            }
            assert(trailing =~= key);
            assert(m.dom().contains(trailing));
            assert(false);
        }
    } else {
        if out.len() == n {
            assert(out.len() < walk_cap(len, n));
            assert(out.subrange(out.len() - n, out.len() as int) == out.subrange(0, n as int));
            assert(false);
        }
        if out.len() > n + 1 {
            let k = n as int + 1;
            assert(m.dom().contains(out.subrange(k - n, k)));
            assert(set![key].contains(out.subrange(k - n, k)));
            let slid = key.drop_first().push(t);
            assert forall|i: int| 0 <= i < n implies out.subrange(k - n, k)[i] == slid[i] by {
                assert(out.subrange(k - n, k)[i] == out[1 + i]);
                if i < n - 1 {
                    assert(out[1 + i] == key[1 + i]);
                    assert(slid[i] == key.drop_first()[i]);
                    assert(key.drop_first()[i] == key[i + 1]);
                } else {
                    assert(out[1 + i] == t);
                }
            }
            assert(out.subrange(k - n, k) =~= slid);
            assert(slid == key);
            assert(false);
        }
    }
}

/// A model built from an empty text generates only the empty message: the
/// empty text has no tokens, its context map is empty, and the only valid
/// walk over an empty map is the empty one.
pub proof fn lemma_empty_corpus_walk(n: nat, len: nat, out: Seq<TokenModel>)
    requires
        valid_walk(context_map_of(tokenize_text(Seq::<char>::empty()), n), n, len, out),
    ensures
        out == Seq::<TokenModel>::empty(),
        concat_texts(out) == Seq::<char>::empty(),
{
    assert(tokenize_text(Seq::<char>::empty()) == Seq::<TokenModel>::empty());
    crate::context_map::lemma_context_map_short(Seq::<TokenModel>::empty(), n);
    let m = context_map_of(tokenize_text(Seq::<char>::empty()), n);
    assert(map_is_empty(m)) by {
        assert(m == Map::<Seq<TokenModel>, Seq<TokenModel>>::empty());
    }
    assert(out.len() == 0);
    assert(out =~= Seq::<TokenModel>::empty());
    assert(concat_texts(out) == Seq::<char>::empty());
}

} // verus!
