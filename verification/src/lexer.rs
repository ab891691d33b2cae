//! The lexical scanner. `scan` is the specification: it maps a character
//! sequence to the token sequence the scanner must produce, and `Lexer`
//! hands those tokens out one at a time, returning an `EOF` token forever
//! once the input is exhausted.

use vstd::prelude::*;

use crate::token::{spec_keyword, Token, TokenKind, TokenView};

verus! {

/// Whether `char::is_alphanumeric` holds of a character.
pub uninterp spec fn alphanumeric(c: char) -> bool;

/// Whether `char::is_whitespace` holds of a character.
pub uninterp spec fn unicode_whitespace(c: char) -> bool;

/// Relies on char::is_alphanumeric: true exactly for Unicode letters and
/// digits. The result depends on the character alone.
#[verifier::external_body]
fn char_is_alphanumeric(c: char) -> (r: bool)
    ensures
        r == alphanumeric(c),
{
    c.is_alphanumeric()
}

/// Relies on char::is_whitespace: true exactly for Unicode whitespace.
/// The result depends on the character alone.
#[verifier::external_body]
fn char_is_whitespace(c: char) -> (r: bool)
    ensures
        r == unicode_whitespace(c),
{
    c.is_whitespace()
}

/// Relies on char::to_string: the one-character string holding `c`.
#[verifier::external_body]
fn char_to_string(c: char) -> (r: String)
    ensures
        r@ == seq![c],
{
    c.to_string()
}

/// Relies on str::chars: the characters of the string, in order.
#[verifier::external_body]
fn str_to_chars(s: &str) -> (r: Vec<char>)
    ensures
        r@ == s@,
{
    s.chars().collect()
}

/// Relies on FromIterator for String over chars: the string of exactly
/// those characters, in order.
#[verifier::external_body]
fn chars_to_string(v: &Vec<char>) -> (r: String)
    ensures
        r@ == v@,
{
    v.iter().collect()
}

/// A character that may stand in an identifier run.
pub open spec fn is_text_char(c: char) -> bool {
    alphanumeric(c) || c == '_' || c == '-'
}

/// Executable counterpart of [`is_text_char`].
pub fn is_valid_text(c: char) -> (r: bool)
    ensures
        r == is_text_char(c),
{
    char_is_alphanumeric(c) || c == '_' || c == '-'
}

/// Length of the maximal identifier-run prefix of `s`.
pub open spec fn run_len(s: Seq<char>) -> nat
    decreases s.len(),
{
    if s.len() == 0 || !is_text_char(s[0]) {
        0
    } else {
        (run_len(s.skip(1)) + 1) as nat
    }
}

/// The token an identifier run scans to: a keyword when the spelling is
/// reserved, otherwise `Text`.
pub open spec fn classify_run(lit: Seq<char>) -> TokenView {
    match spec_keyword(lit) {
        Some(k) => TokenView { kind: k, lit },
        None => TokenView { kind: TokenKind::Text, lit },
    }
}

/// The token stream of a character sequence: whitespace separates and is
/// discarded, maximal identifier runs are classified against the keyword
/// table, and any other character is an `Illegal` token. The terminating
/// `EOF` sentinel is not part of the stream.
pub open spec fn scan(s: Seq<char>) -> Seq<TokenView>
    decreases s.len(),
    via scan_decreases
{
    if s.len() == 0 {
        Seq::empty()
    } else if unicode_whitespace(s[0]) {
        scan(s.skip(1))
    } else if is_text_char(s[0]) {
        seq![classify_run(s.take(run_len(s) as int))] + scan(s.skip(run_len(s) as int))
    } else {
        seq![TokenView { kind: TokenKind::Illegal, lit: seq![s[0]] }] + scan(s.skip(1))
    }
}

#[via_fn]
proof fn scan_decreases(s: Seq<char>) {
    lemma_run_len_bounds(s);
}

/// The maximal run is no longer than the input, its characters are all
/// identifier characters, and it is maximal: the character after it, if
/// any, is not an identifier character.
pub proof fn lemma_run_len_bounds(s: Seq<char>)
    ensures
        run_len(s) <= s.len(),
        forall|i: int| 0 <= i < run_len(s) ==> is_text_char(#[trigger] s[i]),
        run_len(s) < s.len() ==> !is_text_char(s[run_len(s) as int]),
    decreases s.len(),
{
    if s.len() > 0 && is_text_char(s[0]) {
        lemma_run_len_bounds(s.skip(1));
        assert forall|i: int| 0 <= i < run_len(s) implies is_text_char(#[trigger] s[i]) by {
            if i > 0 {
                assert(s[i] == s.skip(1)[i - 1]);
            }
        }
        if run_len(s) < s.len() {
            assert(s[run_len(s) as int] == s.skip(1)[run_len(s.skip(1)) as int]);
        }
    }
}

/// A prefix of `k` identifier characters followed by the end of the input
/// or a non-identifier character is exactly the maximal run.
pub proof fn lemma_run_len_exact(s: Seq<char>, k: int)
    requires
        0 <= k <= s.len(),
        forall|i: int| 0 <= i < k ==> is_text_char(#[trigger] s[i]),
        k == s.len() || !is_text_char(s[k]),
    ensures
        run_len(s) == k,
    decreases s.len(),
{
    if k == 0 {
    } else {
        assert(is_text_char(s[0]));
        assert forall|i: int| 0 <= i < k - 1 implies is_text_char(#[trigger] s.skip(1)[i]) by {
            assert(s.skip(1)[i] == s[i + 1]);
        }
        if k < s.len() {
            assert(s.skip(1)[k - 1] == s[k]);
        }
        lemma_run_len_exact(s.skip(1), k - 1);
    }
}

/// Scanned tokens are keywords, identifiers or `Illegal`: the `EOF`
/// sentinel never stands inside the stream.
pub proof fn lemma_scan_no_eof(s: Seq<char>)
    ensures
        forall|i: int|
            0 <= i < scan(s).len() ==> (#[trigger] scan(s)[i]).kind != TokenKind::EOF,
    decreases s.len(),
{
    if s.len() == 0 {
    } else if unicode_whitespace(s[0]) {
        lemma_scan_no_eof(s.skip(1));
    } else if is_text_char(s[0]) {
        lemma_run_len_bounds(s);
        lemma_scan_no_eof(s.skip(run_len(s) as int));
    } else {
        lemma_scan_no_eof(s.skip(1));
    }
}

/// How the maximal run of a concatenation relates to the runs of its
/// parts: it is the run of `x` when that stops inside `x`, and otherwise
/// continues into `y`.
proof fn lemma_run_len_concat(x: Seq<char>, y: Seq<char>)
    ensures
        run_len(x + y) == if run_len(x) < x.len() {
            run_len(x) as int
        } else {
            x.len() + run_len(y) as int
        },
    decreases x.len(),
{
    if x.len() == 0 {
        assert(x + y =~= y);
    } else if !is_text_char(x[0]) {
        assert((x + y)[0] == x[0]);
    } else {
        assert((x + y)[0] == x[0]);
        assert((x + y).skip(1) =~= x.skip(1) + y);
        lemma_run_len_concat(x.skip(1), y);
        lemma_run_len_bounds(x.skip(1));
    }
}

/// Leading whitespace is discarded: it never changes the token stream.
pub proof fn lemma_scan_ws_prefix(w: Seq<char>, b: Seq<char>)
    requires
        forall|i: int| 0 <= i < w.len() ==> unicode_whitespace(#[trigger] w[i]),
    ensures
        scan(w + b) == scan(b),
    decreases w.len(),
{
    if w.len() == 0 {
        assert(w + b =~= b);
    } else {
        assert((w + b)[0] == w[0]);
        assert((w + b).skip(1) =~= w.skip(1) + b);
        assert(forall|i: int| 0 <= i < w.skip(1).len() ==> unicode_whitespace(
            #[trigger] w.skip(1)[i],
        ));
        lemma_scan_ws_prefix(w.skip(1), b);
    }
}

/// Scanning is insensitive to whitespace between tokens: inserting
/// whitespace characters at any point that does not fall inside an
/// identifier run leaves the token stream unchanged.
pub proof fn lemma_scan_ws_insert(a: Seq<char>, w: Seq<char>, b: Seq<char>)
    requires
        forall|i: int| 0 <= i < w.len() ==> unicode_whitespace(#[trigger] w[i]) && !is_text_char(
            w[i],
        ),
        !(a.len() > 0 && b.len() > 0 && is_text_char(a.last()) && is_text_char(b.first())),
    ensures
        scan(a + w + b) == scan(a + b),
    decreases a.len(),
{
    if a.len() == 0 {
        assert(a + w =~= w);
        assert(a + b =~= b);
        lemma_scan_ws_prefix(w, b);
    } else if unicode_whitespace(a[0]) {
        assert((a + w + b)[0] == a[0]);
        assert((a + b)[0] == a[0]);
        assert((a + w + b).skip(1) =~= a.skip(1) + w + b);
        assert((a + b).skip(1) =~= a.skip(1) + b);
        if a.len() > 1 {
            assert(a.skip(1).last() == a.last());
        }
        lemma_scan_ws_insert(a.skip(1), w, b);
    } else if is_text_char(a[0]) {
        lemma_run_len_bounds(a);
        lemma_run_len_concat(a, w + b);
        lemma_run_len_concat(a, b);
        assert(a + w + b =~= a + (w + b));
        let n = run_len(a) as int;
        if n < a.len() {
            assert(run_len(a + w + b) == n);
            assert(run_len(a + b) == n);
            assert((a + w + b).take(n) =~= (a + b).take(n));
            assert((a + w + b).skip(n) =~= a.skip(n) + w + b);
            assert((a + b).skip(n) =~= a.skip(n) + b);
            assert(a.skip(n).last() == a.last());
            assert(!is_text_char(a.skip(n).first()));
            lemma_scan_ws_insert(a.skip(n), w, b);
        } else {
            // all of `a` is one run, so `b` must not extend it, and the
            // inserted whitespace cannot either
            assert(is_text_char(a.last()));
            if w.len() > 0 {
                assert(!is_text_char((w + b)[0]));
                assert(run_len(w + b) == 0);
            } else {
                assert(w + b =~= b);
                if b.len() > 0 {
                    assert(run_len(b) == 0);
                }
            }
            assert(run_len(a + w + b) == a.len());
            assert(run_len(a + b) == a.len());
            assert((a + w + b).take(a.len() as int) =~= a);
            assert((a + b).take(a.len() as int) =~= a);
            assert((a + w + b).skip(a.len() as int) =~= w + b);
            assert((a + b).skip(a.len() as int) =~= b);
            lemma_scan_ws_prefix(w, b);
        }
    } else {
        assert((a + w + b)[0] == a[0]);
        assert((a + b)[0] == a[0]);
        assert((a + w + b).skip(1) =~= a.skip(1) + w + b);
        assert((a + b).skip(1) =~= a.skip(1) + b);
        if a.len() > 1 {
            assert(a.skip(1).last() == a.last());
        }
        lemma_scan_ws_insert(a.skip(1), w, b);
    }
}

/// The scanner. It owns its input and a cursor; `next_token` advances the
/// cursor by one token.
pub struct Lexer {
    input: Vec<char>,
    pos: usize,
    read_pos: usize,
}

impl Lexer {
    /// The characters not yet consumed.
    pub closed spec fn remaining(self) -> Seq<char> {
        self.input@.skip(self.read_pos as int)
    }

    /// The cursor never runs past the end of the input.
    pub closed spec fn wf(self) -> bool {
        self.read_pos <= self.input@.len()
    }

    pub fn new(input: &str) -> (r: Lexer)
        ensures
            r.wf(),
            r.remaining() == input@,
    {
        let chars = str_to_chars(input);
        let r = Lexer { input: chars, pos: 0, read_pos: 0 };
        proof {
            assert(r.remaining() =~= input@);
        }
        r
    }

    /// Consumes one character, or reports exhaustion.
    fn next(&mut self) -> (r: Option<char>)
        requires
            old(self).wf(),
        ensures
            final(self).wf(),
            final(self).input == old(self).input,
            match r {
                Some(c) => {
                    &&& old(self).read_pos < old(self).input@.len()
                    &&& c == old(self).input@[old(self).read_pos as int]
                    &&& final(self).read_pos == old(self).read_pos + 1
                    &&& final(self).pos == old(self).read_pos
                },
                None => {
                    &&& old(self).read_pos == old(self).input@.len()
                    &&& final(self).read_pos == old(self).read_pos
                    &&& final(self).pos == old(self).read_pos
                },
            },
    {
        if self.read_pos < self.input.len() {
            let c = self.input[self.read_pos];
            self.pos = self.read_pos;
            self.read_pos = self.read_pos + 1;
            Some(c)
        } else {
            self.pos = self.read_pos;
            None
        }
    }

    /// Looks at the next character without consuming it.
    fn peek(&self) -> (r: Option<char>)
        requires
            self.wf(),
        ensures
            match r {
                Some(c) => self.remaining().len() > 0 && c == self.remaining()[0],
                None => self.remaining().len() == 0,
            },
    {
        if self.read_pos < self.input.len() {
            Some(self.input[self.read_pos])
        } else {
            None
        }
    }

    /// Reads the rest of the identifier run whose first character was just
    /// consumed, and returns the whole run.
    fn read_text(&mut self) -> (lit: String)
        requires
            old(self).wf(),
            old(self).read_pos >= 1,
            old(self).pos == old(self).read_pos - 1,
            is_text_char(old(self).input@[old(self).read_pos - 1]),
        ensures
            final(self).wf(),
            final(self).input == old(self).input,
            ({
                let run = old(self).input@.skip(old(self).read_pos - 1);
                &&& lit@ == run.take(run_len(run) as int)
                &&& final(self).read_pos == old(self).read_pos - 1 + run_len(run)
            }),
    {
        let ghost run = self.input@.skip(self.read_pos - 1);
        let start = self.pos;
        let first = self.input[start];
        let mut chars: Vec<char> = Vec::new();
        chars.push(first);
        loop
            invariant
                self.wf(),
                self.input == old(self).input,
                run == self.input@.skip(start as int),
                start == old(self).read_pos - 1,
                1 <= chars@.len() <= run.len(),
                self.read_pos == start + chars@.len(),
                chars@ == run.take(chars@.len() as int),
                forall|i: int| 0 <= i < chars@.len() ==> is_text_char(#[trigger] run[i]),
            ensures
                self.wf(),
                self.input == old(self).input,
                chars@ == run.take(run_len(run) as int),
                self.read_pos == start + run_len(run),
            decreases run.len() - chars@.len(),
        {
            let p = self.peek();
            match p {
                None => {
                    proof {
                        lemma_run_len_exact(run, chars@.len() as int);
                    }
                    break;
                },
                Some(c) => {
                    if is_valid_text(c) {
                        let _ = self.next();
                        chars.push(c);
                        proof {
                            assert(run[chars@.len() - 1] == c);
                            assert(chars@ =~= run.take(chars@.len() as int));
                        }
                    } else {
                        proof {
                            assert(run[chars@.len() as int] == c);
                            lemma_run_len_exact(run, chars@.len() as int);
                        }
                        break;
                    }
                },
            }
        }
        chars_to_string(&chars)
    }

    /// Produces the next token of the stream given by [`scan`]; once the
    /// stream is exhausted it returns the `EOF` token, and keeps doing so.
    pub fn next_token(&mut self) -> (t: Token)
        requires
            old(self).wf(),
        ensures
            final(self).wf(),
            ({
                let toks = scan(old(self).remaining());
                if toks.len() == 0 {
                    t@ == TokenView::eof() && scan(final(self).remaining()).len() == 0
                } else {
                    t@ == toks[0] && scan(final(self).remaining()) == toks.skip(1)
                }
            }),
    {
        loop
            invariant
                self.wf(),
                scan(self.remaining()) == scan(old(self).remaining()),
            decreases self.remaining().len(),
        {
            let ghost rem0 = self.remaining();
            match self.next() {
                None => {
                    return Token::new(String::new(), TokenKind::EOF);
                },
                Some(c) => {
                    proof {
                        assert(c == rem0[0]);
                        assert(self.remaining() =~= rem0.skip(1));
                    }
                    if char_is_whitespace(c) {
                        // the head of the stream is whitespace, so the scan
                        // of the remainder is unchanged
                    } else if is_valid_text(c) {
                        let lit = self.read_text();
                        proof {
                            lemma_run_len_bounds(rem0);
                            assert(self.remaining() =~= rem0.skip(run_len(rem0) as int));
                        }
                        let t = match TokenKind::is_to_keyword(lit.as_str()) {
                            Some(k) => Token::new(lit, k),
                            None => Token::new(lit, TokenKind::Text),
                        };
                        return t;
                    } else {
                        return Token::new(char_to_string(c), TokenKind::Illegal);
                    }
                },
            }
        }
    }
}

} // verus!
