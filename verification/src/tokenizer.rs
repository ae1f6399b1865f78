//! Tokenizer: classifies a character stream into a flat sequence of typed
//! tokens. Each token stores the exact substring it was read from, so the
//! original text can be rebuilt by concatenating the tokens in order.

use vstd::prelude::*;
use vstd::std_specs::iter::IteratorSpec;

verus! {

broadcast use vstd::string::next_postcondition;

/// The mathematical value of a token: its kind together with its surface
/// text as a sequence of characters.
pub enum TokenModel {
    Word(Seq<char>),
    Number(Seq<char>),
    Symbol(char),
    Punctuation(char),
    Whitespace(Seq<char>),
}

/// A classified lexical unit carrying its original surface text.
#[derive(Debug, PartialEq, Eq)]
pub enum Token {
    Word(String),
    Number(String),
    Symbol(char),
    Punctuation(char),
    Whitespace(String),
}

impl View for Token {
    type V = TokenModel;

    open spec fn view(&self) -> TokenModel {
        match self {
            Token::Word(s) => TokenModel::Word(s@),
            Token::Number(s) => TokenModel::Number(s@),
            Token::Symbol(c) => TokenModel::Symbol(*c),
            Token::Punctuation(c) => TokenModel::Punctuation(*c),
            Token::Whitespace(s) => TokenModel::Whitespace(s@),
        }
    }
}

impl DeepView for Token {
    type V = TokenModel;

    open spec fn deep_view(&self) -> TokenModel {
        self.view()
    }
}

/// The surface text of a token: exactly the characters it was read from.
pub open spec fn token_text(t: TokenModel) -> Seq<char> {
    match t {
        TokenModel::Word(s) => s,
        TokenModel::Number(s) => s,
        TokenModel::Symbol(c) => seq![c],
        TokenModel::Punctuation(c) => seq![c],
        TokenModel::Whitespace(s) => s,
    }
}

/// An ASCII decimal digit, `0` through `9`.
pub open spec fn is_digit(c: char) -> bool {
    48 <= c as u32 && c as u32 <= 57
}

/// An ASCII letter, `a-z` or `A-Z`.
pub open spec fn is_letter(c: char) -> bool {
    (65 <= c as u32 && c as u32 <= 90) || (97 <= c as u32 && c as u32 <= 122)
}

/// A character that may continue a word once one has started: a letter,
/// apostrophe, hyphen, or underscore.
pub open spec fn is_word_cont(c: char) -> bool {
    is_letter(c) || c as u32 == 39 || c as u32 == 45 || c as u32 == 95
}

/// A whitespace character: space, tab, newline, or carriage return.
pub open spec fn is_space(c: char) -> bool {
    c as u32 == 32 || c as u32 == 9 || c as u32 == 10 || c as u32 == 13
}

/// One of the six punctuation marks `. , ! ? ; :`.
pub open spec fn is_punct(c: char) -> bool {
    c as u32 == 46 || c as u32 == 44 || c as u32 == 33 || c as u32 == 63 || c as u32 == 59
        || c as u32 == 58
}

/// How many leading characters of `s` are ASCII digits.
pub open spec fn digit_run(s: Seq<char>) -> nat
    decreases s.len(),
{
    if s.len() == 0 || !is_digit(s[0]) {
        0
    } else {
        1 + digit_run(s.drop_first())
    }
}

/// How many leading characters of `s` may continue a word.
pub open spec fn word_cont_run(s: Seq<char>) -> nat
    decreases s.len(),
{
    if s.len() == 0 || !is_word_cont(s[0]) {
        0
    } else {
        1 + word_cont_run(s.drop_first())
    }
}

/// How many leading characters of `s` are whitespace.
pub open spec fn space_run(s: Seq<char>) -> nat
    decreases s.len(),
{
    if s.len() == 0 || !is_space(s[0]) {
        0
    } else {
        1 + space_run(s.drop_first())
    }
}

/// The length of the maximal-munch token that starts at the head of `s`:
/// a digit opens a run of digits, a letter opens a word that letters,
/// apostrophes, hyphens and underscores may continue, whitespace opens a
/// whitespace run, and anything else stands alone.
pub open spec fn head_token_len(s: Seq<char>) -> nat
    recommends
        s.len() > 0,
{
    if is_digit(s[0]) {
        digit_run(s)
    } else if is_letter(s[0]) {
        1 + word_cont_run(s.drop_first())
    } else if is_space(s[0]) {
        space_run(s)
    } else {
        1
    }
}

/// The token that maximal munch reads from the head of `s`.
pub open spec fn head_token(s: Seq<char>) -> TokenModel
    recommends
        s.len() > 0,
{
    let c = s[0];
    if is_digit(c) {
        TokenModel::Number(s.take(head_token_len(s) as int))
    } else if is_letter(c) {
        TokenModel::Word(s.take(head_token_len(s) as int))
    } else if is_space(c) {
        TokenModel::Whitespace(s.take(head_token_len(s) as int))
    } else if is_punct(c) {
        TokenModel::Punctuation(c)
    } else {
        TokenModel::Symbol(c)
    }
}

/// The token sequence read from `s`, left to right, maximal munch per
/// token. The step is clamped into range only so that the recursion is
/// visibly bounded; `lemma_head_token_len_bounds` shows the clamp never
/// takes effect.
pub open spec fn tokenize_text(s: Seq<char>) -> Seq<TokenModel>
    decreases s.len(),
{
    if s.len() == 0 {
        Seq::empty()
    } else {
        let n = head_token_len(s);
        let step = if n < 1 {
            1 as nat
        } else if n > s.len() {
            s.len()
        } else {
            n
        };
        seq![head_token(s)] + tokenize_text(s.skip(step as int))
    }
}

/// The concatenation of the surface texts of a token sequence, in order.
pub open spec fn concat_texts(ts: Seq<TokenModel>) -> Seq<char>
    decreases ts.len(),
{
    if ts.len() == 0 {
        Seq::empty()
    } else {
        token_text(ts[0]) + concat_texts(ts.drop_first())
    }
}

proof fn lemma_digit_run_le(s: Seq<char>)
    ensures
        digit_run(s) <= s.len(),
    decreases s.len(),
{
    if s.len() > 0 && is_digit(s[0]) {
        lemma_digit_run_le(s.drop_first());
    }
}

proof fn lemma_word_cont_run_le(s: Seq<char>)
    ensures
        word_cont_run(s) <= s.len(),
    decreases s.len(),
{
    if s.len() > 0 && is_word_cont(s[0]) {
        lemma_word_cont_run_le(s.drop_first());
    }
}

proof fn lemma_space_run_le(s: Seq<char>)
    ensures
        space_run(s) <= s.len(),
    decreases s.len(),
{
    if s.len() > 0 && is_space(s[0]) {
        lemma_space_run_le(s.drop_first());
    }
}

proof fn lemma_digit_run_is(s: Seq<char>, k: nat)
    requires
        k <= s.len(),
        forall|m: int| 0 <= m < k ==> is_digit(s[m]),
        k < s.len() ==> !is_digit(s[k as int]),
    ensures
        digit_run(s) == k,
    decreases k,
{
    if k == 0 {
    } else {
        assert(is_digit(s[0]));
        let d = s.drop_first();
        assert forall|m: int| 0 <= m < k - 1 implies is_digit(d[m]) by {
            assert(d[m] == s[m + 1]);
        }
        if k - 1 < d.len() {
            assert(d[k - 1] == s[k as int]);
        }
        lemma_digit_run_is(d, (k - 1) as nat);
    }
}

proof fn lemma_word_cont_run_is(s: Seq<char>, k: nat)
    requires
        k <= s.len(),
        forall|m: int| 0 <= m < k ==> is_word_cont(s[m]),
        k < s.len() ==> !is_word_cont(s[k as int]),
    ensures
        word_cont_run(s) == k,
    decreases k,
{
    if k == 0 {
    } else {
        assert(is_word_cont(s[0]));
        let d = s.drop_first();
        assert forall|m: int| 0 <= m < k - 1 implies is_word_cont(d[m]) by {
            assert(d[m] == s[m + 1]);
        }
        if k - 1 < d.len() {
            assert(d[k - 1] == s[k as int]);
        }
        lemma_word_cont_run_is(d, (k - 1) as nat);
    }
}

proof fn lemma_space_run_is(s: Seq<char>, k: nat)
    requires
        k <= s.len(),
        forall|m: int| 0 <= m < k ==> is_space(s[m]),
        k < s.len() ==> !is_space(s[k as int]),
    ensures
        space_run(s) == k,
    decreases k,
{
    if k == 0 {
    } else {
        assert(is_space(s[0]));
        let d = s.drop_first();
        assert forall|m: int| 0 <= m < k - 1 implies is_space(d[m]) by {
            assert(d[m] == s[m + 1]);
        }
        if k - 1 < d.len() {
            assert(d[k - 1] == s[k as int]);
        }
        lemma_space_run_is(d, (k - 1) as nat);
    }
}

/// A nonempty text always opens with a token of at least one and at most
/// all of its characters.
pub proof fn lemma_head_token_len_bounds(s: Seq<char>)
    requires
        s.len() > 0,
    ensures
        1 <= head_token_len(s) <= s.len(),
{
    if is_digit(s[0]) {
        lemma_digit_run_le(s);
    } else if is_letter(s[0]) {
        lemma_word_cont_run_le(s.drop_first());
    } else if is_space(s[0]) {
        lemma_space_run_le(s);
    }
}

/// Unfolding step: on a nonempty text, tokenization reads the head token
/// and continues after it.
pub proof fn lemma_tokenize_text_unfold(s: Seq<char>)
    requires
        s.len() > 0,
    ensures
        tokenize_text(s) == seq![head_token(s)] + tokenize_text(
            s.skip(head_token_len(s) as int),
        ),
{
    lemma_head_token_len_bounds(s);
}

/// The head token's surface text is exactly the characters it was read from.
proof fn lemma_token_text_head(s: Seq<char>)
    requires
        s.len() > 0,
    ensures
        token_text(head_token(s)) == s.take(head_token_len(s) as int),
{
    if !is_digit(s[0]) && !is_letter(s[0]) && !is_space(s[0]) {
        assert(s.take(1) =~= seq![s[0]]);
    }
}

/// Round trip: concatenating the surface texts of `tokenize_text(s)` in
/// order reproduces `s` exactly, for every text `s`.
pub proof fn lemma_tokenize_round_trip(s: Seq<char>)
    ensures
        concat_texts(tokenize_text(s)) == s,
    decreases s.len(),
{
    if s.len() == 0 {
        assert(concat_texts(tokenize_text(s)) =~= s);
    } else {
        lemma_head_token_len_bounds(s);
        let n = head_token_len(s) as int;
        let rest = s.skip(n);
        lemma_tokenize_text_unfold(s);
        lemma_token_text_head(s);
        lemma_tokenize_round_trip(rest);
        let ts = tokenize_text(s);
        assert(ts.drop_first() =~= tokenize_text(rest));
        assert(concat_texts(ts) == token_text(ts[0]) + concat_texts(ts.drop_first()));
        assert(concat_texts(ts) =~= s.take(n) + s.skip(n));
        assert(s.take(n) + s.skip(n) =~= s);
    }
}

fn is_digit_char(c: char) -> (r: bool)
    ensures
        r == is_digit(c),
{
    let u = c as u32;
    48 <= u && u <= 57
}

fn is_letter_char(c: char) -> (r: bool)
    ensures
        r == is_letter(c),
{
    let u = c as u32;
    (65 <= u && u <= 90) || (97 <= u && u <= 122)
}

fn is_word_cont_char(c: char) -> (r: bool)
    ensures
        r == is_word_cont(c),
{
    let u = c as u32;
    (65 <= u && u <= 90) || (97 <= u && u <= 122) || u == 39 || u == 45 || u == 95
}

fn is_space_char(c: char) -> (r: bool)
    ensures
        r == is_space(c),
{
    let u = c as u32;
    u == 32 || u == 9 || u == 10 || u == 13
}

fn is_punct_char(c: char) -> (r: bool)
    ensures
        r == is_punct(c),
{
    let u = c as u32;
    u == 46 || u == 44 || u == 33 || u == 63 || u == 59 || u == 58
}

/// Relies on `String::push`: appends the given character at the end of the
/// string, changing nothing else.
#[verifier::external_body]
fn push_char(s: &mut String, c: char)
    ensures
        final(s)@ == old(s)@.push(c),
{
    s.push(c);
}

fn char_string(c: char) -> (r: String)
    ensures
        r@ == seq![c],
{
    let mut s = String::new();
    push_char(&mut s, c);
    proof {
        assert(s@ =~= seq![c]);
    }
    s
}

impl Token {
    /// The token's original surface text.
    pub fn to_string(&self) -> (r: String)
        ensures
            r@ == token_text(self@),
    {
        match self {
            Token::Word(s) => s.clone(),
            Token::Number(s) => s.clone(),
            Token::Symbol(c) => char_string(*c),
            Token::Punctuation(c) => char_string(*c),
            Token::Whitespace(s) => s.clone(),
        }
    }
}

proof fn lemma_step_number(t: Seq<char>, i: int, j: int)
    requires
        0 <= i < j <= t.len(),
        forall|k: int| i <= k < j ==> is_digit(t[k]),
        j < t.len() ==> !is_digit(t[j]),
    ensures
        tokenize_text(t.skip(i)) == seq![TokenModel::Number(t.subrange(i, j))] + tokenize_text(
            t.skip(j),
        ),
{
    let s = t.skip(i);
    assert forall|m: int| 0 <= m < j - i implies is_digit(s[m]) by {
        assert(s[m] == t[i + m]);
    }
    if j - i < s.len() {
        assert(s[j - i] == t[j]);
    }
    lemma_digit_run_is(s, (j - i) as nat);
    assert(is_digit(s[0]));
    assert(head_token_len(s) == j - i);
    assert(s.take(j - i) =~= t.subrange(i, j));
    assert(head_token(s) == TokenModel::Number(t.subrange(i, j)));
    assert(s.skip(j - i) =~= t.skip(j));
    lemma_tokenize_text_unfold(s);
}

proof fn lemma_step_word(t: Seq<char>, i: int, j: int)
    requires
        0 <= i < j <= t.len(),
        is_letter(t[i]),
        forall|k: int| i < k < j ==> is_word_cont(t[k]),
        j < t.len() ==> !is_word_cont(t[j]),
    ensures
        tokenize_text(t.skip(i)) == seq![TokenModel::Word(t.subrange(i, j))] + tokenize_text(
            t.skip(j),
        ),
{
    let s = t.skip(i);
    assert(s[0] == t[i]);
    let d = s.drop_first();
    assert forall|m: int| 0 <= m < j - i - 1 implies is_word_cont(d[m]) by {
        assert(d[m] == t[i + m + 1]);
    }
    if j - i - 1 < d.len() {
        assert(d[j - i - 1] == t[j]);
    }
    lemma_word_cont_run_is(d, (j - i - 1) as nat);
    assert(head_token_len(s) == j - i);
    assert(s.take(j - i) =~= t.subrange(i, j));
    assert(head_token(s) == TokenModel::Word(t.subrange(i, j)));
    assert(s.skip(j - i) =~= t.skip(j));
    lemma_tokenize_text_unfold(s);
}

proof fn lemma_step_space(t: Seq<char>, i: int, j: int)
    requires
        0 <= i < j <= t.len(),
        forall|k: int| i <= k < j ==> is_space(t[k]),
        j < t.len() ==> !is_space(t[j]),
    ensures
        tokenize_text(t.skip(i)) == seq![TokenModel::Whitespace(t.subrange(i, j))]
            + tokenize_text(t.skip(j)),
{
    let s = t.skip(i);
    assert forall|m: int| 0 <= m < j - i implies is_space(s[m]) by {
        assert(s[m] == t[i + m]);
    }
    if j - i < s.len() {
        assert(s[j - i] == t[j]);
    }
    lemma_space_run_is(s, (j - i) as nat);
    assert(is_space(s[0]));
    assert(head_token_len(s) == j - i);
    assert(s.take(j - i) =~= t.subrange(i, j));
    assert(head_token(s) == TokenModel::Whitespace(t.subrange(i, j)));
    assert(s.skip(j - i) =~= t.skip(j));
    lemma_tokenize_text_unfold(s);
}

proof fn lemma_step_single(t: Seq<char>, i: int)
    requires
        0 <= i < t.len(),
        !is_digit(t[i]),
        !is_letter(t[i]),
        !is_space(t[i]),
    ensures
        tokenize_text(t.skip(i)) == seq![
            (if is_punct(t[i]) {
                TokenModel::Punctuation(t[i])
            } else {
                TokenModel::Symbol(t[i])
            }),
        ] + tokenize_text(t.skip(i + 1)),
{
    let s = t.skip(i);
    assert(s[0] == t[i]);
    assert(head_token_len(s) == 1);
    assert(s.skip(1) =~= t.skip(i + 1));
    lemma_tokenize_text_unfold(s);
}

/// The characters of a text, in order, as a vector.
pub fn str_to_chars(text: &str) -> (r: Vec<char>)
    ensures
        r@ == text@,
{
    let mut it = text.chars();
    let mut out: Vec<char> = Vec::new();
    loop
        invariant
            it.obeys_prophetic_iter_laws(),
            it.decrease() is Some,
            out@ + it.remaining() == text@,
        decreases it.decrease()->0,
    {
        match it.next() {
            Some(c) => {
                out.push(c);
                proof {
                    assert(out@ + it.remaining() =~= text@);
                }
            },
            None => {
                proof {
                    assert(out@ =~= text@);
                }
                return out;
            },
        }
    }
}

/// The characters `cs[i..j]`, gathered into an owned string.
fn chars_to_string(cs: &Vec<char>, i: usize, j: usize) -> (r: String)
    requires
        i <= j <= cs@.len(),
    ensures
        r@ == cs@.subrange(i as int, j as int),
{
    let mut s = String::new();
    let mut k = i;
    proof {
        assert(s@ =~= cs@.subrange(i as int, i as int));
    }
    while k < j
        invariant
            i <= k <= j <= cs@.len(),
            s@ == cs@.subrange(i as int, k as int),
        decreases j - k,
    {
        push_char(&mut s, cs[k]);
        k += 1;
        proof {
            assert(s@ =~= cs@.subrange(i as int, k as int));
        }
    }
    s
}

fn digit_run_end(cs: &Vec<char>, i: usize) -> (j: usize)
    requires
        i < cs@.len(),
        is_digit(cs@[i as int]),
    ensures
        i < j <= cs@.len(),
        forall|k: int| i <= k < j ==> is_digit(cs@[k]),
        j < cs@.len() ==> !is_digit(cs@[j as int]),
{
    let n = cs.len();
    let mut j = i + 1;
    while j < n
        invariant
            n == cs@.len(),
            i < j <= n,
            forall|k: int| i <= k < j ==> is_digit(cs@[k]),
        decreases n - j,
    {
        if !is_digit_char(cs[j]) {
            return j;
        }
        j += 1;
    }
    j
}

fn word_run_end(cs: &Vec<char>, i: usize) -> (j: usize)
    requires
        i < cs@.len(),
        is_letter(cs@[i as int]),
    ensures
        i < j <= cs@.len(),
        forall|k: int| i < k < j ==> is_word_cont(cs@[k]),
        j < cs@.len() ==> !is_word_cont(cs@[j as int]),
{
    let n = cs.len();
    let mut j = i + 1;
    while j < n
        invariant
            n == cs@.len(),
            i < j <= n,
            forall|k: int| i < k < j ==> is_word_cont(cs@[k]),
        decreases n - j,
    {
        if !is_word_cont_char(cs[j]) {
            return j;
        }
        j += 1;
    }
    j
}

fn space_run_end(cs: &Vec<char>, i: usize) -> (j: usize)
    requires
        i < cs@.len(),
        is_space(cs@[i as int]),
    ensures
        i < j <= cs@.len(),
        forall|k: int| i <= k < j ==> is_space(cs@[k]),
        j < cs@.len() ==> !is_space(cs@[j as int]),
{
    let n = cs.len();
    let mut j = i + 1;
    while j < n
        invariant
            n == cs@.len(),
            i < j <= n,
            forall|k: int| i <= k < j ==> is_space(cs@[k]),
        decreases n - j,
    {
        if !is_space_char(cs[j]) {
            return j;
        }
        j += 1;
    }
    j
}

/// Reads a borrowed text left to right and classifies it into tokens.
pub struct TextTokenizer<'t> {
    text: &'t str,
}

impl<'t> View for TextTokenizer<'t> {
    type V = Seq<char>;

    closed spec fn view(&self) -> Seq<char> {
        self.text@
    }
}

impl<'t> TextTokenizer<'t> {
    /// A tokenizer over the given text.
    pub fn new(text: &'t str) -> (r: Self)
        ensures
            r@ == text@,
    {
        TextTokenizer { text }
    }

    /// Classifies the whole text into its token sequence. Total: every
    /// character of the input lands in exactly one token, so the tokens'
    /// surface texts concatenate back to the input.
    pub fn tokenize(&self) -> (r: Vec<Token>)
        ensures
            r.deep_view() == tokenize_text(self@),
    {
        let cs = str_to_chars(self.text);
        tokenize_chars(&cs)
    }
}

fn push_token(tokens: &mut Vec<Token>, t: Token)
    ensures
        final(tokens).deep_view() == old(tokens).deep_view().push(t@),
{
    let ghost pre = tokens.deep_view();
    let ghost tv = t@;
    tokens.push(t);
    proof {
        assert forall|k: int| 0 <= k < tokens.deep_view().len() implies tokens.deep_view()[k]
            == pre.push(tv)[k] by {
            if k < pre.len() {
                assert(tokens@[k] == old(tokens)@[k]);
            } else {
                assert(tokens@[k] == t);
            }
        }
        assert(tokens.deep_view() =~= pre.push(tv));
    }
}

/// Classifies a character vector into its token sequence, left to right,
/// maximal munch per token.
pub fn tokenize_chars(cs: &Vec<char>) -> (r: Vec<Token>)
    ensures
        r.deep_view() == tokenize_text(cs@),
{
    let n = cs.len();
    let mut tokens: Vec<Token> = Vec::new();
    let mut i: usize = 0;
    proof {
        assert(cs@.skip(0) =~= cs@);
        assert(tokens.deep_view() =~= Seq::<TokenModel>::empty());
        assert(tokens.deep_view() + tokenize_text(cs@) =~= tokenize_text(cs@));
    }
    while i < n
        invariant
            n == cs@.len(),
            i <= n,
            tokenize_text(cs@) == tokens.deep_view() + tokenize_text(cs@.skip(i as int)),
        decreases n - i,
    {
        let c = cs[i];
        let ghost pre = tokens.deep_view();
        let next: usize;
        if is_digit_char(c) {
            let j = digit_run_end(cs, i);
            let tok = Token::Number(chars_to_string(cs, i, j));
            proof {
                lemma_step_number(cs@, i as int, j as int);
            }
            push_token(&mut tokens, tok);
            next = j;
        } else if is_letter_char(c) {
            let j = word_run_end(cs, i);
            let tok = Token::Word(chars_to_string(cs, i, j));
            proof {
                lemma_step_word(cs@, i as int, j as int);
            }
            push_token(&mut tokens, tok);
            next = j;
        } else if is_space_char(c) {
            let j = space_run_end(cs, i);
            let tok = Token::Whitespace(chars_to_string(cs, i, j));
            proof {
                lemma_step_space(cs@, i as int, j as int);
            }
            push_token(&mut tokens, tok);
            next = j;
        } else if is_punct_char(c) {
            proof {
                lemma_step_single(cs@, i as int);
            }
            push_token(&mut tokens, Token::Punctuation(c));
            next = i + 1;
        } else {
            proof {
                lemma_step_single(cs@, i as int);
            }
            push_token(&mut tokens, Token::Symbol(c));
            next = i + 1;
        }
        proof {
            let tok_model = tokens.deep_view().last();
            assert(tokens.deep_view() =~= pre + seq![tok_model]);
            assert((pre + seq![tok_model]) + tokenize_text(cs@.skip(next as int)) =~= pre + (
            seq![tok_model] + tokenize_text(cs@.skip(next as int))));
        }
        i = next;
    }
    proof {
        assert(cs@.skip(n as int) =~= Seq::<char>::empty());
        assert(tokens.deep_view() =~= tokenize_text(cs@));
    }
    tokens
}

impl Clone for Token {
    /// An exact copy: the clone has the same kind and the same surface text.
    fn clone(&self) -> (r: Self)
        ensures
            r@ == self@,
    {
        match self {
            Token::Word(s) => Token::Word(s.clone()),
            Token::Number(s) => Token::Number(s.clone()),
            Token::Symbol(c) => Token::Symbol(*c),
            Token::Punctuation(c) => Token::Punctuation(*c),
            Token::Whitespace(s) => Token::Whitespace(s.clone()),
        }
    }
}

} // verus!
