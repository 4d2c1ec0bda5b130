//! The tokenizer: turns raw text into a sequence of normalized tokens.
//!
//! Scanning one token works on the text that remains: skip ASCII whitespace;
//! then, looking at the first character,
//! - a decimal digit starts a maximal run of decimal digits or ASCII
//!   punctuation characters, kept verbatim;
//! - an alphabetic character starts a maximal run of alphanumeric
//!   characters, emitted in its Unicode uppercase form;
//! - any other character is a one-character token, kept verbatim.
//!
//! The function [`tokens_of`] is the mathematical model of this process;
//! [`Lexer`] is the executable scanner proved against it.
use crate::chars::{
    is_ascii_punct, is_ascii_ws, is_dec_digit, is_digit_char, is_punct_char, is_ws_char,
    to_uppercase_str, unicode_alphabetic, unicode_numeric, upper_of,
};
use crate::strutil::chars_to_string;
use vstd::prelude::*;

verus! {

/// Characters that may continue a numeric token: decimal digits and ASCII
/// punctuation (so a version-like literal is captured whole).
pub open spec fn is_num_char(c: char) -> bool {
    is_digit_char(c) || is_punct_char(c)
}

/// Characters that may continue a word token: Unicode alphanumerics.
pub open spec fn is_word_char(c: char) -> bool {
    unicode_alphabetic(c) || unicode_numeric(c)
}

/// Length of the maximal prefix of `s` whose characters all satisfy `p`.
pub open spec fn run_len(s: Seq<char>, p: spec_fn(char) -> bool) -> nat
    decreases s.len(),
{
    if s.len() == 0 || !p(s[0]) {
        0
    } else {
        1 + run_len(s.drop_first(), p)
    }
}

pub proof fn lemma_run_len_le(s: Seq<char>, p: spec_fn(char) -> bool)
    ensures
        run_len(s, p) <= s.len(),
    decreases s.len(),
{
    if s.len() > 0 && p(s[0]) {
        lemma_run_len_le(s.drop_first(), p);
    }
}

/// A maximal run is pinned down by: everything before it satisfies `p`,
/// and the character after it (if any) does not.
pub proof fn lemma_run_len_is(s: Seq<char>, p: spec_fn(char) -> bool, i: int)
    requires
        0 <= i <= s.len(),
        forall|j: int| 0 <= j < i ==> p(s[j]),
        i < s.len() ==> !p(s[i]),
    ensures
        run_len(s, p) == i,
    decreases i,
{
    if i == 0 {
    } else {
        assert(p(s[0]));
        lemma_run_len_is(s.drop_first(), p, i - 1);
    }
}

/// How many characters of `s` the next token consumes, assuming `s` starts
/// with a non-whitespace character.
pub open spec fn raw_token_len(s: Seq<char>) -> nat {
    if s.len() == 0 {
        0
    } else if is_digit_char(s[0]) {
        run_len(s, |c: char| is_num_char(c))
    } else if unicode_alphabetic(s[0]) {
        run_len(s, |c: char| is_word_char(c))
    } else {
        1
    }
}

pub proof fn lemma_raw_len_bounds(s: Seq<char>)
    requires
        s.len() > 0,
    ensures
        1 <= raw_token_len(s) <= s.len(),
{
    if is_digit_char(s[0]) {
        let p = |c: char| is_num_char(c);
        assert(p(s[0]));
        lemma_run_len_le(s, p);
    } else if unicode_alphabetic(s[0]) {
        let p = |c: char| is_word_char(c);
        assert(p(s[0]));
        lemma_run_len_le(s, p);
    }
}

/// The normalized token emitted for the head of `s`, assuming `s` starts
/// with a non-whitespace character. A word token is the Unicode uppercase
/// form of the run it consumed, so its length may differ from the run's.
pub open spec fn head_token(s: Seq<char>) -> Seq<char> {
    if s.len() == 0 {
        Seq::empty()
    } else if is_digit_char(s[0]) {
        s.take(raw_token_len(s) as int)
    } else if unicode_alphabetic(s[0]) {
        upper_of(s.take(raw_token_len(s) as int))
    } else {
        s.take(1)
    }
}

/// The model of the whole tokenizer: the sequence of tokens of `s`.
pub open spec fn tokens_of(s: Seq<char>) -> Seq<Seq<char>>
    decreases s.len(),
    via tokens_of_dec
{
    if s.len() == 0 {
        Seq::empty()
    } else if is_ws_char(s[0]) {
        tokens_of(s.drop_first())
    } else {
        seq![head_token(s)] + tokens_of(s.skip(raw_token_len(s) as int))
    }
}

#[via_fn]
proof fn tokens_of_dec(s: Seq<char>) {
    if s.len() > 0 && !is_ws_char(s[0]) {
        lemma_raw_len_bounds(s);
    }
}

/// `s` with its leading ASCII whitespace removed.
pub open spec fn skip_ws(s: Seq<char>) -> Seq<char>
    decreases s.len(),
{
    if s.len() > 0 && is_ws_char(s[0]) {
        skip_ws(s.drop_first())
    } else {
        s
    }
}

pub proof fn lemma_skip_ws_tokens(s: Seq<char>)
    ensures
        tokens_of(skip_ws(s)) == tokens_of(s),
        skip_ws(s).len() > 0 ==> !is_ws_char(skip_ws(s)[0]),
        skip_ws(s).len() <= s.len(),
    decreases s.len(),
{
    if s.len() > 0 && is_ws_char(s[0]) {
        lemma_skip_ws_tokens(s.drop_first());
    }
}

/// One step of the tokenizer consumes characters strictly left to right: a
/// character is dropped without being emitted only if it is whitespace, one
/// at a time, and a token consumes exactly `raw_token_len(s)` >= 1 leading
/// characters. A digit-led or symbol token is those characters verbatim; a
/// word token is their Unicode uppercase form.
pub proof fn lemma_tokenizer_step(s: Seq<char>)
    requires
        s.len() > 0,
    ensures
        is_ws_char(s[0]) ==> tokens_of(s) == tokens_of(s.drop_first()),
        !is_ws_char(s[0]) ==> 1 <= raw_token_len(s) <= s.len(),
        !is_ws_char(s[0]) ==> tokens_of(s) == seq![head_token(s)] + tokens_of(
            s.skip(raw_token_len(s) as int),
        ),
        !is_ws_char(s[0]) && is_digit_char(s[0]) ==> head_token(s) == s.take(
            raw_token_len(s) as int,
        ),
        !is_ws_char(s[0]) && !is_digit_char(s[0]) && unicode_alphabetic(s[0]) ==> head_token(s)
            == upper_of(s.take(raw_token_len(s) as int)),
        !is_ws_char(s[0]) && !is_digit_char(s[0]) && !unicode_alphabetic(s[0]) ==> head_token(s)
            == s.take(1) && raw_token_len(s) == 1,
{
    if !is_ws_char(s[0]) {
        lemma_raw_len_bounds(s);
    }
}

/// Which class of characters a token run accepts.
#[derive(Clone, Copy)]
pub enum TokenClass {
    Numeric,
    Word,
}

/// The predicate a [`TokenClass`] stands for.
pub open spec fn class_fn(k: TokenClass) -> spec_fn(char) -> bool {
    match k {
        TokenClass::Numeric => |c: char| is_num_char(c),
        TokenClass::Word => |c: char| is_word_char(c),
    }
}

fn char_in_class(k: TokenClass, c: char) -> (r: bool)
    ensures
        r == class_fn(k)(c),
{
    match k {
        TokenClass::Numeric => is_dec_digit(c) || is_ascii_punct(c),
        TokenClass::Word => c.is_alphanumeric(),
    }
}

/// A single-pass scanner over a borrowed character buffer. Its view is the
/// text that remains to be scanned.
pub struct Lexer<'a> {
    content: &'a [char],
}

impl<'a> View for Lexer<'a> {
    type V = Seq<char>;

    closed spec fn view(&self) -> Seq<char> {
        self.content@
    }
}

impl<'a> Lexer<'a> {
    pub fn new(content: &'a [char]) -> (l: Self)
        ensures
            l@ == content@,
    {
        Self { content }
    }

    fn trim_left(&mut self) -> (rest: &'a [char])
        ensures
            final(self)@ == skip_ws(old(self)@),
            rest@ == final(self)@,
    {
        let ghost orig = self.content@;
        while !self.content.is_empty() && is_ascii_ws(self.content[0])
            invariant
                skip_ws(self.content@) == skip_ws(orig),
            decreases self.content@.len(),
        {
            let n = self.content.len();
            proof {
                assert(self.content@.subrange(1, n as int) =~= self.content@.drop_first());
            }
            self.content = &self.content[1..n];
        }
        self.content
    }

    fn strip_left(&mut self, n: usize) -> (token: &'a [char])
        requires
            n <= old(self)@.len(),
        ensures
            token@ == old(self)@.take(n as int),
            final(self)@ == old(self)@.skip(n as int),
    {
        let len = self.content.len();
        let token = &self.content[0..n];
        self.content = &self.content[n..len];
        token
    }

    fn strip_left_while(&mut self, k: TokenClass) -> (token: &'a [char])
        ensures
            token@ == old(self)@.take(run_len(old(self)@, class_fn(k)) as int),
            final(self)@ == old(self)@.skip(run_len(old(self)@, class_fn(k)) as int),
    {
        let mut i: usize = 0;
        let n = self.content.len();
        while i < n && char_in_class(k, self.content[i])
            invariant
                i <= n,
                n == self.content@.len(),
                forall|j: int| 0 <= j < i ==> class_fn(k)(self.content@[j]),
            decreases n - i,
        {
            i = i + 1;
        }
        proof {
            lemma_run_len_is(self.content@, class_fn(k), i as int);
        }
        self.strip_left(i)
    }

    /// Scans the next token, or returns `None` once only whitespace is
    /// left. The token returned is the head of `tokens_of` of the text
    /// that remained, it is never empty, and the scanner consumes exactly
    /// the leading whitespace and the token's run of characters.
    pub fn next_token(&mut self) -> (r: Option<String>)
        ensures
            r is Some <==> tokens_of(old(self)@).len() > 0,
            r is None ==> final(self)@ == skip_ws(old(self)@) && final(self)@.len() == 0,
            r matches Some(t) ==> t@ == tokens_of(old(self)@)[0] && t@.len() > 0 && tokens_of(
                final(self)@,
            ) == tokens_of(old(self)@).drop_first() && final(self)@ == skip_ws(old(self)@).skip(
                raw_token_len(skip_ws(old(self)@)) as int,
            ) && final(self)@.len() < old(self)@.len(),
    {
        let ghost orig = self@;
        self.trim_left();
        let ghost t = self@;
        proof {
            lemma_skip_ws_tokens(orig);
        }
        if self.content.is_empty() {
            return None;
        }
        proof {
            lemma_tokenizer_step(t);
            assert((seq![head_token(t)] + tokens_of(t.skip(raw_token_len(t) as int))).drop_first()
                =~= tokens_of(t.skip(raw_token_len(t) as int)));
        }
        let c = self.content[0];
        if is_dec_digit(c) {
            let token = self.strip_left_while(TokenClass::Numeric);
            return Some(chars_to_string(token));
        }
        if c.is_alphabetic() {
            let token = self.strip_left_while(TokenClass::Word);
            let run = chars_to_string(token);
            let s = to_uppercase_str(run.as_str());
            return Some(s);
        }
        let token = self.strip_left(1);
        Some(chars_to_string(token))
    }
}

/// Runs the scanner over the whole of `content` and collects the tokens.
/// No collected token is empty.
pub fn tokenize(content: &[char]) -> (toks: Vec<String>)
    ensures
        toks.deep_view() == tokens_of(content@),
        forall|i: int| 0 <= i < toks.deep_view().len() ==> #[trigger] toks.deep_view()[i].len() > 0,
{
    let mut lexer = Lexer::new(content);
    let mut toks: Vec<String> = Vec::new();
    loop
        invariant
            toks.deep_view() + tokens_of(lexer@) == tokens_of(content@),
            forall|i: int|
                0 <= i < toks.deep_view().len() ==> #[trigger] toks.deep_view()[i].len() > 0,
        ensures
            toks.deep_view() == tokens_of(content@),
            forall|i: int|
                0 <= i < toks.deep_view().len() ==> #[trigger] toks.deep_view()[i].len() > 0,
        decreases lexer@.len(),
    {
        let ghost before = toks.deep_view();
        match lexer.next_token() {
            Some(tok) => {
                toks.push(tok);
                proof {
                    assert(toks.deep_view() =~= before.push(toks@[toks@.len() - 1]@));
                    assert(toks.deep_view() + tokens_of(lexer@) =~= tokens_of(content@));
                }
            },
            None => {
                proof {
                    assert(tokens_of(lexer@).len() == 0);
                    assert(toks.deep_view() + tokens_of(lexer@) =~= toks.deep_view());
                }
                break ;
            },
        }
    }
    toks
}

} // verus!
