use vstd::prelude::*;

use crate::text::{
    count_occ, count_char, end_trimmed_len, end_trimmed, find_char, first_index_of,
    last_index_of, lemma_count_concat, lemma_count_repeat, lemma_end_trimmed_len,
    lemma_first_index_of, lemma_last_index_of, push_all, repeat_char, rfind_char, skip_ws,
    skip_ws_from, str_chars, string_from_chars, subseq_vec,
};

verus! {

// The repair pipeline reconstructs parseable structured data from an
// incrementally streamed, possibly truncated buffer. It is a fixed, ordered
// sequence of heuristic steps, each stated on the character sequence so that
// every step is auditable on its own.
/// Step: if a separator comma immediately follows the last quotation mark
/// (skipping whitespace), it is removed; without a quotation mark, or without
/// such a comma, the buffer is unchanged.
pub open spec fn spec_drop_comma_after_quote(s: Seq<char>) -> Seq<char> {
    let q = last_index_of(s, '"');
    if q == -1 {
        s
    } else {
        let j = skip_ws(s, q + 1);
        if j < s.len() && s[j] == ',' {
            s.remove(j)
        } else {
            s
        }
    }
}

/// Step: everything before the first opening object brace is discarded;
/// without one, the buffer is unchanged.
pub open spec fn spec_drop_preamble(s: Seq<char>) -> Seq<char> {
    let p = first_index_of(s, '{');
    if p == -1 {
        s
    } else {
        s.subrange(p, s.len() as int)
    }
}

/// Step: with an odd number of quotation marks, one closing quotation mark is
/// appended.
pub open spec fn spec_close_quote(s: Seq<char>) -> Seq<char> {
    if count_occ(s, '"') % 2 == 1 {
        s.push('"')
    } else {
        s
    }
}

/// The last position where a dangling empty-string element `,""` starts, or
/// -1 if there is none.
pub open spec fn last_empty_item_at(s: Seq<char>) -> int
    decreases s.len(),
{
    if s.len() < 3 {
        -1
    } else if s[s.len() - 3] == ',' && s[s.len() - 2] == '"' && s[s.len() - 1] == '"' {
        s.len() - 3
    } else {
        last_empty_item_at(s.drop_last())
    }
}

/// A found empty-string element lies within bounds and looks like `,""`.
pub proof fn lemma_last_empty_item_at(s: Seq<char>)
    ensures
        last_empty_item_at(s) != -1 ==> {
            let p = last_empty_item_at(s);
            &&& 0 <= p <= s.len() - 3
            &&& s[p] == ','
            &&& s[p + 1] == '"'
            &&& s[p + 2] == '"'
        },
    decreases s.len(),
{
    if s.len() >= 3 && !(s[s.len() - 3] == ',' && s[s.len() - 2] == '"' && s[s.len() - 1]
        == '"') {
        lemma_last_empty_item_at(s.drop_last());
        assert(forall|j: int| 0 <= j < s.len() - 1 ==> s.drop_last()[j] == s[j]);
    }
}

/// Step: if the right-trimmed buffer ends in an empty-string literal, the last
/// `,""` group is removed; otherwise the buffer is unchanged.
pub open spec fn spec_drop_trailing_empty(s: Seq<char>) -> Seq<char> {
    let b = end_trimmed_len(s);
    if b >= 2 && s[b - 1] == '"' && s[b - 2] == '"' {
        let p = last_empty_item_at(s);
        if p == -1 {
            s
        } else {
            s.subrange(0, p) + s.subrange(p + 3, s.len() as int)
        }
    } else {
        s
    }
}

/// Step: closing characters are appended to make up for an excess of opening
/// characters; with no excess, the buffer is unchanged.
pub open spec fn spec_balance(s: Seq<char>, open: char, close: char) -> Seq<char> {
    let o = count_occ(s, open);
    let c = count_occ(s, close);
    if c < o {
        s + Seq::new((o - c) as nat, |i: int| close)
    } else {
        s
    }
}

/// The whole repair pipeline, in its fixed order: drop a separator after the
/// last quotation mark, drop the preamble, close an unterminated string, drop
/// a dangling empty element, drop a separator the previous step may have
/// exposed, and balance array brackets and object braces.
pub open spec fn spec_repair(s: Seq<char>) -> Seq<char> {
    spec_balance(
        spec_balance(
            spec_drop_comma_after_quote(
                spec_drop_trailing_empty(
                    spec_close_quote(spec_drop_preamble(spec_drop_comma_after_quote(s))),
                ),
            ),
            '[',
            ']',
        ),
        '{',
        '}',
    )
}

/// Exec mirror of [`spec_drop_comma_after_quote`].
pub fn drop_comma_after_quote(v: Vec<char>) -> (r: Vec<char>)
    ensures
        r@ == spec_drop_comma_after_quote(v@),
{
    match rfind_char(&v, '"') {
        None => v,
        Some(q) => {
            let n = v.len();
            proof {
                lemma_last_index_of(v@, '"');
            }
            assert(q < n);
            let j = skip_ws_from(&v, q + 1);
            if j < v.len() && v[j] == ',' {
                let mut v = v;
                v.remove(j);
                v
            } else {
                v
            }
        },
    }
}

/// Exec mirror of [`spec_drop_preamble`].
pub fn drop_preamble(v: Vec<char>) -> (r: Vec<char>)
    ensures
        r@ == spec_drop_preamble(v@),
{
    match find_char(&v, '{') {
        None => v,
        Some(p) => {
            proof {
                lemma_first_index_of(v@, '{');
            }
            subseq_vec(&v, p, v.len())
        },
    }
}

/// Exec mirror of [`spec_close_quote`].
pub fn close_quote(v: Vec<char>) -> (r: Vec<char>)
    ensures
        r@ == spec_close_quote(v@),
{
    let n = count_char(&v, '"');
    if n % 2 == 1 {
        let mut v = v;
        v.push('"');
        v
    } else {
        v
    }
}

/// Exec mirror of [`last_empty_item_at`].
pub fn find_last_empty_item(v: &Vec<char>) -> (r: Option<usize>)
    ensures
        match r {
            Some(p) => p == last_empty_item_at(v@),
            None => last_empty_item_at(v@) == -1,
        },
{
    let mut i = v.len();
    proof {
        assert(v@.take(v@.len() as int) =~= v@);
    }
    while i >= 3
        invariant
            i <= v@.len(),
            last_empty_item_at(v@) == last_empty_item_at(v@.take(i as int)),
        decreases i,
    {
        proof {
            let t = v@.take(i as int);
            assert(t[i - 3] == v@[i - 3] && t[i - 2] == v@[i - 2] && t[i - 1] == v@[i - 1]);
            assert(t.drop_last() =~= v@.take(i - 1));
        }
        if v[i - 3] == ',' && v[i - 2] == '"' && v[i - 1] == '"' {
            return Some(i - 3);
        }
        i -= 1;
    }
    None
}

/// Exec mirror of [`spec_drop_trailing_empty`].
pub fn drop_trailing_empty(v: Vec<char>) -> (r: Vec<char>)
    ensures
        r@ == spec_drop_trailing_empty(v@),
{
    let b = end_trimmed(&v);
    proof {
        lemma_end_trimmed_len(v@);
    }
    if b >= 2 && v[b - 1] == '"' && v[b - 2] == '"' {
        match find_last_empty_item(&v) {
            None => v,
            Some(p) => {
                proof {
                    lemma_last_empty_item_at(v@);
                }
                let mut out = subseq_vec(&v, 0, p);
                let tail = subseq_vec(&v, p + 3, v.len());
                push_all(&mut out, &tail);
                out
            },
        }
    } else {
        v
    }
}

/// Exec mirror of [`spec_balance`].
pub fn balance(v: Vec<char>, open: char, close: char) -> (r: Vec<char>)
    ensures
        r@ == spec_balance(v@, open, close),
{
    let o = count_char(&v, open);
    let c = count_char(&v, close);
    if c < o {
        let mut v = v;
        let fill = repeat_char(close, o - c);
        push_all(&mut v, &fill);
        v
    } else {
        v
    }
}

/// Runs the whole repair pipeline over a raw streamed buffer.
pub fn repair(raw: &str) -> (r: String)
    ensures
        r@ == spec_repair(raw@),
{
    let buf = str_chars(raw);
    let buf = drop_comma_after_quote(buf);
    let buf = drop_preamble(buf);
    let buf = close_quote(buf);
    let buf = drop_trailing_empty(buf);
    let buf = drop_comma_after_quote(buf);
    let buf = balance(buf, '[', ']');
    let buf = balance(buf, '{', '}');
    string_from_chars(buf)
}

/// The balance step appends exactly the deficit of closers at the buffer's
/// end; afterwards closers are as numerous as openers, whose count it never
/// changes.
pub proof fn lemma_balance_appends_deficit(s: Seq<char>, open: char, close: char)
    requires
        open != close,
        count_occ(s, close) < count_occ(s, open),
    ensures
        spec_balance(s, open, close) == s + Seq::new(
            (count_occ(s, open) - count_occ(s, close)) as nat,
            |i: int| close,
        ),
        count_occ(spec_balance(s, open, close), close) == count_occ(s, open),
        count_occ(spec_balance(s, open, close), open) == count_occ(s, open),
{
    let d = (count_occ(s, open) - count_occ(s, close)) as nat;
    let fill = Seq::new(d, |i: int| close);
    lemma_count_concat(s, fill, close);
    lemma_count_concat(s, fill, open);
    lemma_count_repeat(d, close, close);
    lemma_count_repeat(d, close, open);
}

} // verus!
