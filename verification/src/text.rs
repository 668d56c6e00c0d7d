use vstd::prelude::*;

verus! {

/// Whitespace as this library understands it: the ASCII blank characters that
/// occur in structure documents and streamed buffers.
pub open spec fn is_ws(c: char) -> bool {
    c == ' ' || c == '\t' || c == '\r' || c == '\n'
}

/// Exec mirror of [`is_ws`].
pub fn is_ws_char(c: char) -> (r: bool)
    ensures
        r == is_ws(c),
{
    c == ' ' || c == '\t' || c == '\r' || c == '\n'
}

/// The characters of a string slice, in order.
pub fn str_chars(s: &str) -> (r: Vec<char>)
    ensures
        r@ == s@,
{
    let n = s.unicode_len();
    let mut out: Vec<char> = Vec::new();
    let mut i: usize = 0;
    while i < n
        invariant
            n == s@.len(),
            i <= n,
            out@ == s@.take(i as int),
        decreases n - i,
    {
        let c = s.get_char(i);
        out.push(c);
        proof {
            assert(out@ =~= s@.take(i + 1 as int));
        }
        i += 1;
    }
    proof {
        assert(out@ =~= s@);
    }
    out
}

/// Relies on `String`'s `FromIterator<char>` impl: the collected string holds
/// exactly the given characters, in order.
#[verifier::external_body]
pub fn string_from_chars(v: Vec<char>) -> (r: String)
    ensures
        r@ == v@,
{
    String::from_iter(v)
}

/// How many times the character occurs in the sequence.
pub open spec fn count_occ(s: Seq<char>, c: char) -> nat
    decreases s.len(),
{
    if s.len() == 0 {
        0
    } else {
        count_occ(s.drop_last(), c) + if s.last() == c {
            1nat
        } else {
            0nat
        }
    }
}

/// Occurrences in a concatenation are the occurrences in the parts.
pub proof fn lemma_count_concat(a: Seq<char>, b: Seq<char>, c: char)
    ensures
        count_occ(a + b, c) == count_occ(a, c) + count_occ(b, c),
    decreases b.len(),
{
    if b.len() == 0 {
        assert(a + b =~= a);
    } else {
        assert((a + b).drop_last() =~= a + b.drop_last());
        assert((a + b).last() == b.last());
        lemma_count_concat(a, b.drop_last(), c);
    }
}

/// Occurrences in a constant sequence.
pub proof fn lemma_count_repeat(n: nat, d: char, c: char)
    ensures
        count_occ(Seq::new(n, |i: int| d), c) == if c == d {
            n
        } else {
            0nat
        },
    decreases n,
{
    let s = Seq::new(n, |i: int| d);
    if n > 0 {
        assert(s.drop_last() =~= Seq::new((n - 1) as nat, |i: int| d));
        lemma_count_repeat((n - 1) as nat, d, c);
    }
}

/// Exec mirror of [`count_occ`].
pub fn count_char(v: &Vec<char>, c: char) -> (r: usize)
    ensures
        r == count_occ(v@, c),
{
    let n = v.len();
    let mut cnt: usize = 0;
    let mut i: usize = 0;
    while i < n
        invariant
            n == v@.len(),
            i <= n,
            cnt == count_occ(v@.take(i as int), c),
            cnt <= i,
        decreases n - i,
    {
        proof {
            assert(v@.take(i + 1 as int).drop_last() =~= v@.take(i as int));
            assert(v@.take(i + 1 as int).last() == v@[i as int]);
        }
        if v[i] == c {
            cnt += 1;
        }
        i += 1;
    }
    proof {
        assert(v@.take(n as int) =~= v@);
    }
    cnt
}

/// The last index at which the character occurs, or -1 if it does not.
pub open spec fn last_index_of(s: Seq<char>, c: char) -> int
    decreases s.len(),
{
    if s.len() == 0 {
        -1
    } else if s.last() == c {
        s.len() - 1
    } else {
        last_index_of(s.drop_last(), c)
    }
}

/// What [`last_index_of`] means: it is the greatest index holding the
/// character, or -1 when the character is absent.
pub proof fn lemma_last_index_of(s: Seq<char>, c: char)
    ensures
        last_index_of(s, c) == -1 ==> forall|j: int| 0 <= j < s.len() ==> s[j] != c,
        last_index_of(s, c) != -1 ==> {
            let r = last_index_of(s, c);
            &&& 0 <= r < s.len()
            &&& s[r] == c
            &&& forall|j: int| r < j < s.len() ==> s[j] != c
        },
    decreases s.len(),
{
    if s.len() > 0 && s.last() != c {
        lemma_last_index_of(s.drop_last(), c);
        assert(forall|j: int| 0 <= j < s.len() - 1 ==> s[j] == s.drop_last()[j]);
    }
}

/// Exec mirror of [`last_index_of`].
pub fn rfind_char(v: &Vec<char>, c: char) -> (r: Option<usize>)
    ensures
        match r {
            Some(i) => i == last_index_of(v@, c),
            None => last_index_of(v@, c) == -1,
        },
{
    let mut i = v.len();
    proof {
        assert(v@.take(v@.len() as int) =~= v@);
    }
    while i > 0
        invariant
            i <= v@.len(),
            last_index_of(v@, c) == last_index_of(v@.take(i as int), c),
        decreases i,
    {
        proof {
            assert(v@.take(i as int).last() == v@[i - 1]);
            assert(v@.take(i as int).drop_last() =~= v@.take(i - 1));
        }
        if v[i - 1] == c {
            return Some(i - 1);
        }
        i -= 1;
    }
    None
}

/// The first index at which the character occurs, or -1 if it does not.
pub open spec fn first_index_of(s: Seq<char>, c: char) -> int
    decreases s.len(),
{
    if s.len() == 0 {
        -1
    } else if s[0] == c {
        0
    } else {
        let r = first_index_of(s.drop_first(), c);
        if r == -1 {
            -1
        } else {
            r + 1
        }
    }
}

/// What [`first_index_of`] means: it is the least index holding the
/// character, or -1 when the character is absent.
pub proof fn lemma_first_index_of(s: Seq<char>, c: char)
    ensures
        first_index_of(s, c) == -1 ==> forall|j: int| 0 <= j < s.len() ==> s[j] != c,
        first_index_of(s, c) != -1 ==> {
            let r = first_index_of(s, c);
            &&& 0 <= r < s.len()
            &&& s[r] == c
            &&& forall|j: int| 0 <= j < r ==> s[j] != c
        },
    decreases s.len(),
{
    if s.len() > 0 && s[0] != c {
        lemma_first_index_of(s.drop_first(), c);
        let rr = first_index_of(s.drop_first(), c);
        if rr == -1 {
            assert forall|j: int| 0 <= j < s.len() implies s[j] != c by {
                if j > 0 {
                    assert(s.drop_first()[j - 1] == s[j]);
                }
            }
        } else {
            assert(s.drop_first()[rr] == s[rr + 1]);
            assert forall|j: int| 0 <= j < rr + 1 implies s[j] != c by {
                if j > 0 {
                    assert(s.drop_first()[j - 1] == s[j]);
                }
            }
        }
    }
}

/// Exec mirror of [`first_index_of`].
pub fn find_char(v: &Vec<char>, c: char) -> (r: Option<usize>)
    ensures
        match r {
            Some(i) => i == first_index_of(v@, c),
            None => first_index_of(v@, c) == -1,
        },
{
    let n = v.len();
    let mut i: usize = 0;
    while i < n
        invariant
            n == v@.len(),
            i <= n,
            forall|j: int| 0 <= j < i ==> v@[j] != c,
        decreases n - i,
    {
        if v[i] == c {
            proof {
                lemma_first_index_of(v@, c);
                let r = first_index_of(v@, c);
                assert(v@[i as int] == c);
                assert(r != -1);
                if r < i {
                    assert(v@[r] != c);
                }
            }
            return Some(i);
        }
        i += 1;
    }
    proof {
        lemma_first_index_of(v@, c);
    }
    None
}

/// The first position at or after `i` holding a non-whitespace character, or
/// the length if all of the rest is whitespace.
pub open spec fn skip_ws(s: Seq<char>, i: int) -> int
    decreases s.len() - i,
{
    if i < 0 || i >= s.len() {
        s.len() as int
    } else if is_ws(s[i]) {
        skip_ws(s, i + 1)
    } else {
        i
    }
}

/// Exec mirror of [`skip_ws`].
pub fn skip_ws_from(v: &Vec<char>, start: usize) -> (r: usize)
    ensures
        r == skip_ws(v@, start as int),
        start <= r <= v@.len() || (start > v@.len() && r == v@.len()),
{
    let n = v.len();
    if start >= n {
        return n;
    }
    let mut i = start;
    while i < n && is_ws_char(v[i])
        invariant
            n == v@.len(),
            start <= i <= n,
            skip_ws(v@, start as int) == skip_ws(v@, i as int),
        decreases n - i,
    {
        i += 1;
    }
    i
}

/// The length the sequence has once trailing whitespace is dropped.
pub open spec fn end_trimmed_len(s: Seq<char>) -> int
    decreases s.len(),
{
    if s.len() == 0 {
        0
    } else if is_ws(s.last()) {
        end_trimmed_len(s.drop_last())
    } else {
        s.len() as int
    }
}

/// The end-trimmed length is within bounds, and everything past it is
/// whitespace while the character just before it is not.
pub proof fn lemma_end_trimmed_len(s: Seq<char>)
    ensures
        0 <= end_trimmed_len(s) <= s.len(),
        forall|j: int| end_trimmed_len(s) <= j < s.len() ==> is_ws(s[j]),
        end_trimmed_len(s) > 0 ==> !is_ws(s[end_trimmed_len(s) - 1]),
    decreases s.len(),
{
    if s.len() > 0 && is_ws(s.last()) {
        lemma_end_trimmed_len(s.drop_last());
        assert(forall|j: int| 0 <= j < s.len() - 1 ==> s.drop_last()[j] == s[j]);
    }
}

/// The sequence with trailing whitespace dropped.
pub open spec fn trim_end(s: Seq<char>) -> Seq<char> {
    s.take(end_trimmed_len(s))
}

/// Exec mirror of [`end_trimmed_len`].
pub fn end_trimmed(v: &Vec<char>) -> (r: usize)
    ensures
        r == end_trimmed_len(v@),
{
    let mut k = v.len();
    proof {
        assert(v@.take(v@.len() as int) =~= v@);
    }
    while k > 0 && is_ws_char(v[k - 1])
        invariant
            k <= v@.len(),
            end_trimmed_len(v@) == end_trimmed_len(v@.take(k as int)),
        decreases k,
    {
        proof {
            assert(v@.take(k as int).last() == v@[k - 1]);
            assert(v@.take(k as int).drop_last() =~= v@.take(k - 1));
        }
        k -= 1;
    }
    proof {
        if k > 0 {
            assert(v@.take(k as int).last() == v@[k - 1]);
        }
        assert(v@.take(v@.len() as int) =~= v@);
    }
    k
}

/// The sequence trimmed of whitespace at both ends.
pub open spec fn spec_trim(s: Seq<char>) -> Seq<char> {
    let b = end_trimmed_len(s);
    let a = skip_ws(s, 0);
    if a >= b {
        Seq::empty()
    } else {
        s.subrange(a, b)
    }
}

/// A copy of the characters from `from` (inclusive) to `to` (exclusive).
pub fn subseq_vec(v: &Vec<char>, from: usize, to: usize) -> (r: Vec<char>)
    requires
        from <= to <= v@.len(),
    ensures
        r@ == v@.subrange(from as int, to as int),
{
    let mut out: Vec<char> = Vec::new();
    let mut i = from;
    while i < to
        invariant
            from <= i <= to <= v@.len(),
            out@ == v@.subrange(from as int, i as int),
        decreases to - i,
    {
        out.push(v[i]);
        proof {
            assert(out@ =~= v@.subrange(from as int, i + 1 as int));
        }
        i += 1;
    }
    out
}

/// Exec mirror of [`spec_trim`].
pub fn trim_chars(v: &Vec<char>) -> (r: Vec<char>)
    ensures
        r@ == spec_trim(v@),
{
    let b = end_trimmed(v);
    let a = skip_ws_from(v, 0);
    proof {
        lemma_end_trimmed_len(v@);
    }
    if a >= b {
        let out: Vec<char> = Vec::new();
        proof {
            assert(out@ =~= Seq::<char>::empty());
        }
        out
    } else {
        subseq_vec(v, a, b)
    }
}

/// `n` copies of the character.
pub fn repeat_char(c: char, n: usize) -> (r: Vec<char>)
    ensures
        r@ == Seq::new(n as nat, |i: int| c),
{
    let mut out: Vec<char> = Vec::new();
    let mut i: usize = 0;
    while i < n
        invariant
            i <= n,
            out@ == Seq::new(i as nat, |j: int| c),
        decreases n - i,
    {
        out.push(c);
        proof {
            assert(out@ =~= Seq::new((i + 1) as nat, |j: int| c));
        }
        i += 1;
    }
    out
}

/// Appends a copy of `src` to `dst`.
pub fn push_all(dst: &mut Vec<char>, src: &Vec<char>)
    ensures
        final(dst)@ == old(dst)@ + src@,
{
    let n = src.len();
    let mut i: usize = 0;
    while i < n
        invariant
            n == src@.len(),
            i <= n,
            dst@ == old(dst)@ + src@.take(i as int),
        decreases n - i,
    {
        dst.push(src[i]);
        proof {
            assert(dst@ =~= old(dst)@ + src@.take(i + 1 as int));
        }
        i += 1;
    }
    proof {
        assert(old(dst)@ + src@.take(n as int) =~= old(dst)@ + src@);
    }
}

} // verus!
