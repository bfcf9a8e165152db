//! An English–Japanese lookup library: a tokenizer that turns free text into
//! searchable words, and a dictionary store that merges bundled and user
//! definitions into a ranked result set.
use vstd::prelude::*;
use vstd::string::*;

pub mod ej_dict;
pub mod font;

verus! {

/// A delimiter outside a quoted span ends the current token.
pub open spec fn is_word_delim(c: char) -> bool {
    c == ' ' || c == ',' || c == '.'
}

/// The scanner's state: finished tokens, the accumulator, and whether a quoted
/// span is open.
pub struct ScanState {
    pub tokens: Seq<Seq<char>>,
    pub acc: Seq<char>,
    pub in_quote: bool,
}

/// Appends the accumulator to the tokens when it is non-empty.
pub open spec fn flush(tokens: Seq<Seq<char>>, acc: Seq<char>) -> Seq<Seq<char>> {
    if acc.len() > 0 {
        tokens.push(acc)
    } else {
        tokens
    }
}

/// One character of the scan: a quote flushes and toggles the quoted span, a
/// delimiter outside quotes flushes and is dropped, anything else accumulates.
pub open spec fn scan_step(st: ScanState, c: char) -> ScanState {
    if c == '"' {
        ScanState { tokens: flush(st.tokens, st.acc), acc: seq![], in_quote: !st.in_quote }
    } else if is_word_delim(c) && !st.in_quote {
        ScanState { tokens: flush(st.tokens, st.acc), acc: seq![], in_quote: st.in_quote }
    } else {
        ScanState { tokens: st.tokens, acc: st.acc.push(c), in_quote: st.in_quote }
    }
}

/// The scanner's state after reading all of `s` from the start.
pub open spec fn scan(s: Seq<char>) -> ScanState
    decreases s.len(),
{
    if s.len() == 0 {
        ScanState { tokens: seq![], acc: seq![], in_quote: false }
    } else {
        scan_step(scan(s.drop_last()), s.last())
    }
}

/// The tokens of `s`: the scan's tokens with the final accumulator flushed.
pub open spec fn tokens_of(s: Seq<char>) -> Seq<Seq<char>> {
    flush(scan(s).tokens, scan(s).acc)
}

/// A token that a quote-free scan can produce: non-empty, with no delimiter
/// and no quote in it.
pub open spec fn is_plain_word(w: Seq<char>) -> bool {
    &&& w.len() > 0
    &&& forall|k: int| 0 <= k < w.len() ==> !is_word_delim(#[trigger] w[k]) && w[k] != '"'
}

/// Text with no quote character in it.
pub open spec fn quote_free(s: Seq<char>) -> bool {
    forall|k: int| 0 <= k < s.len() ==> #[trigger] s[k] != '"'
}

/// The tokens joined by a single space.
pub open spec fn join_with_space(t: Seq<Seq<char>>) -> Seq<char>
    decreases t.len(),
{
    if t.len() == 0 {
        seq![]
    } else if t.len() == 1 {
        t[0]
    } else {
        join_with_space(t.drop_last()) + seq![' '] + t.last()
    }
}

proof fn lemma_scan_tokens_nonempty(s: Seq<char>)
    ensures
        forall|k: int| 0 <= k < scan(s).tokens.len() ==> #[trigger] scan(s).tokens[k].len() > 0,
    decreases s.len(),
{
    if s.len() > 0 {
        let prev = scan(s.drop_last());
        lemma_scan_tokens_nonempty(s.drop_last());
        assert forall|k: int| 0 <= k < scan(s).tokens.len() implies #[trigger] scan(
            s,
        ).tokens[k].len() > 0 by {
            if k < prev.tokens.len() {
                assert(scan(s).tokens[k] == prev.tokens[k]);
            }
        }
    }
}

/// No token of any text is empty.
pub proof fn lemma_split_tokens_nonempty(s: Seq<char>)
    ensures
        forall|k: int| 0 <= k < tokens_of(s).len() ==> #[trigger] tokens_of(s)[k].len() > 0,
{
    lemma_scan_tokens_nonempty(s);
}

proof fn lemma_scan_quote_free(s: Seq<char>)
    requires
        quote_free(s),
    ensures
        !scan(s).in_quote,
        forall|k: int| 0 <= k < scan(s).tokens.len() ==> is_plain_word(#[trigger] scan(s).tokens[k]),
        forall|k: int| 0 <= k < scan(s).acc.len() ==>
            !is_word_delim(#[trigger] scan(s).acc[k]) && scan(s).acc[k] != '"',
    decreases s.len(),
{
    if s.len() > 0 {
        assert(quote_free(s.drop_last()));
        lemma_scan_quote_free(s.drop_last());
        assert(s.last() == s[s.len() - 1]);
    }
}

proof fn lemma_scan_append_word(p: Seq<char>, w: Seq<char>)
    requires
        !scan(p).in_quote,
        forall|k: int| 0 <= k < w.len() ==> !is_word_delim(#[trigger] w[k]) && w[k] != '"',
    ensures
        scan(p + w) == (ScanState { tokens: scan(p).tokens, acc: scan(p).acc + w, in_quote: false }),
    decreases w.len(),
{
    if w.len() == 0 {
        assert(p + w =~= p);
        assert(scan(p).acc + w =~= scan(p).acc);
    } else {
        let w0 = w.drop_last();
        lemma_scan_append_word(p, w0);
        assert((p + w).drop_last() =~= p + w0);
        assert((p + w).last() == w[w.len() - 1]);
        assert(scan(p).acc + w0 + seq![w.last()] =~= scan(p).acc + w);
        assert((scan(p).acc + w0).push(w.last()) =~= scan(p).acc + w);
    }
}

proof fn lemma_scan_join(t: Seq<Seq<char>>)
    requires
        t.len() > 0,
        forall|k: int| 0 <= k < t.len() ==> is_plain_word(#[trigger] t[k]),
    ensures
        scan(join_with_space(t)) == (ScanState { tokens: t.drop_last(), acc: t.last(), in_quote: false }),
    decreases t.len(),
{
    let empty: Seq<char> = seq![];
    if t.len() == 1 {
        assert(is_plain_word(t[0]));
        lemma_scan_append_word(empty, t[0]);
        assert(empty + t[0] =~= t[0]);
        assert(t.drop_last() =~= seq![]);
    } else {
        let t0 = t.drop_last();
        assert forall|k: int| 0 <= k < t0.len() implies is_plain_word(#[trigger] t0[k]) by {
            assert(t0[k] == t[k]);
        }
        lemma_scan_join(t0);
        let j0 = join_with_space(t0);
        let j1 = j0 + seq![' '];
        assert(j1.drop_last() =~= j0);
        assert(j1.last() == ' ');
        assert(is_plain_word(t0.last()));
        assert(scan(j1).tokens =~= t0);
        assert(is_plain_word(t[t.len() - 1]));
        lemma_scan_append_word(j1, t.last());
        assert(empty + t.last() =~= t.last());
    }
}

/// Joining the tokens of quote-free text with single spaces and splitting
/// again gives the same tokens.
pub proof fn lemma_split_join_idempotent(s: Seq<char>)
    requires
        quote_free(s),
    ensures
        tokens_of(join_with_space(tokens_of(s))) == tokens_of(s),
{
    lemma_scan_quote_free(s);
    let t = tokens_of(s);
    assert forall|k: int| 0 <= k < t.len() implies is_plain_word(#[trigger] t[k]) by {
        if k < scan(s).tokens.len() {
            assert(t[k] == scan(s).tokens[k]);
        } else {
            assert(t[k] == scan(s).acc);
        }
    }
    if t.len() == 0 {
        assert(join_with_space(t) =~= seq![]);
        assert(tokens_of(seq![]) =~= t);
    } else {
        lemma_scan_join(t);
        assert(t.drop_last().push(t.last()) =~= t);
    }
}

/// Tells whether `c` separates words: a space, a comma, a period or a quote.
pub fn is_delimiter(c: char) -> (r: bool)
    ensures
        r == (is_word_delim(c) || c == '"'),
{
    c == ' ' || c == ',' || c == '.' || c == '"'
}

/// Splits `text` into word tokens; a quoted span is one token, delimiters and
/// all.
pub fn text_split(text: String) -> (ret: Vec<String>)
    ensures
        ret.deep_view() == tokens_of(text@),
        forall|k: int| 0 <= k < ret.len() ==> #[trigger] ret[k]@.len() > 0,
{
    let n = text.as_str().unicode_len();
    let mut ret: Vec<String> = Vec::new();
    let mut start: usize = 0;
    let mut i: usize = 0;
    let mut in_quote = false;
    while i < n
        invariant
            n == text@.len(),
            start <= i <= n,
            ret.deep_view() == scan(text@.take(i as int)).tokens,
            text@.subrange(start as int, i as int) == scan(text@.take(i as int)).acc,
            in_quote == scan(text@.take(i as int)).in_quote,
        decreases n - i,
    {
        let c = text.as_str().get_char(i);
        assert(text@.take(i + 1).drop_last() == text@.take(i as int));
        if c == '"' || (is_delimiter(c) && !in_quote) {
            if start < i {
                let tok = text.as_str().substring_char(start, i).to_owned();
                ret.push(tok);
            }
            if c == '"' {
                in_quote = !in_quote;
            }
            start = i + 1;
        }
        i = i + 1;
        proof {
            assert(ret.deep_view() =~= scan(text@.take(i as int)).tokens);
        }
    }
    if start < n {
        let tok = text.as_str().substring_char(start, n).to_owned();
        ret.push(tok);
    }
    assert(text@.take(n as int) == text@);
    proof {
        assert(ret.deep_view() =~= tokens_of(text@));
        lemma_split_tokens_nonempty(text@);
        assert forall|k: int| 0 <= k < ret.len() implies #[trigger] ret[k]@.len() > 0 by {
            assert(ret[k]@ == ret.deep_view()[k]);
        }
    }
    ret
}

} // verus!
