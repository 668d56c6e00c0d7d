use vstd::prelude::*;

use crate::table::entry_views;
use crate::text::{spec_trim, str_chars, string_from_chars, trim_chars};

verus! {

/// Characters that sanitization replaces with an underscore by name:
/// space, hyphen, apostrophe, exclamation mark and double quote.
pub open spec fn is_replaced_char(c: char) -> bool {
    c == ' ' || c == '-' || c == '\'' || c == '!' || c == '"'
}

pub open spec fn is_lower_char(c: char) -> bool {
    97 <= c as u32 && c as u32 <= 122
}

pub open spec fn is_upper_char(c: char) -> bool {
    65 <= c as u32 && c as u32 <= 90
}

pub open spec fn is_digit_char(c: char) -> bool {
    48 <= c as u32 && c as u32 <= 57
}

pub open spec fn is_alnum_char(c: char) -> bool {
    is_lower_char(c) || is_upper_char(c) || is_digit_char(c)
}

/// A character of a finished key: an upper-case ASCII letter, an ASCII digit,
/// or an underscore.
pub open spec fn is_key_char(c: char) -> bool {
    c == '_' || is_upper_char(c) || is_digit_char(c)
}

/// The upper-case form of an ASCII letter; any other character is unchanged.
pub open spec fn upper_char(c: char) -> char {
    if is_lower_char(c) {
        (c as u32 - 32) as char
    } else {
        c
    }
}

/// What sanitization does to one character: the named punctuation becomes an
/// underscore, ASCII alphanumerics are upper-cased, everything else becomes
/// an underscore.
pub open spec fn sanitize_char(c: char) -> char {
    if is_replaced_char(c) {
        '_'
    } else if is_alnum_char(c) {
        upper_char(c)
    } else {
        '_'
    }
}

/// Sanitization of a whole name, character by character.
pub open spec fn sanitize(s: Seq<char>) -> Seq<char> {
    s.map_values(|c: char| sanitize_char(c))
}

/// Exec mirror of [`sanitize_char`].
pub fn sanitize_char_exec(c: char) -> (r: char)
    ensures
        r == sanitize_char(c),
{
    if c == ' ' || c == '-' || c == '\'' || c == '!' || c == '"' {
        '_'
    } else {
        let u = c as u32;
        if 97 <= u && u <= 122 {
            let b = c as u8;
            (b - 32) as char
        } else if (65 <= u && u <= 90) || (48 <= u && u <= 57) {
            c
        } else {
            '_'
        }
    }
}

/// Sanitizes a character sequence.
pub fn sanitize_chars(v: &Vec<char>) -> (r: Vec<char>)
    ensures
        r@ == sanitize(v@),
{
    let n = v.len();
    let mut out: Vec<char> = Vec::new();
    let mut i: usize = 0;
    while i < n
        invariant
            n == v@.len(),
            i <= n,
            out@.len() == i,
            forall|j: int| 0 <= j < i ==> out@[j] == sanitize_char(v@[j]),
        decreases n - i,
    {
        out.push(sanitize_char_exec(v[i]));
        i += 1;
    }
    proof {
        assert(out@ =~= sanitize(v@));
    }
    out
}

/// Turns a raw display name into a sanitized key fragment.
pub fn sanitize_key(name: &str) -> (r: String)
    ensures
        r@ == sanitize(name@),
{
    let chars = str_chars(name);
    string_from_chars(sanitize_chars(&chars))
}

/// The number of characters a sequence keeps once trailing underscores are
/// dropped.
pub open spec fn end_underscore_len(s: Seq<char>) -> int
    decreases s.len(),
{
    if s.len() == 0 {
        0
    } else if s.last() == '_' {
        end_underscore_len(s.drop_last())
    } else {
        s.len() as int
    }
}

/// The sequence with trailing underscores dropped.
pub open spec fn strip_trailing_underscores(s: Seq<char>) -> Seq<char> {
    s.take(end_underscore_len(s))
}

/// Exec mirror of [`strip_trailing_underscores`].
pub fn strip_underscores(v: &Vec<char>) -> (r: Vec<char>)
    ensures
        r@ == strip_trailing_underscores(v@),
{
    let mut k = v.len();
    proof {
        assert(v@.take(v@.len() as int) =~= v@);
    }
    while k > 0 && v[k - 1] == '_'
        invariant
            k <= v@.len(),
            end_underscore_len(v@) == end_underscore_len(v@.take(k as int)),
        decreases k,
    {
        proof {
            assert(v@.take(k as int).last() == v@[k - 1]);
            assert(v@.take(k as int).drop_last() =~= v@.take(k - 1));
        }
        k -= 1;
    }
    proof {
        if k > 0 {
            assert(v@.take(k as int).last() == v@[k - 1]);
        }
        assert(0 <= end_underscore_len(v@) <= v@.len()) by {
            lemma_end_underscore_len_bounds(v@);
        }
    }
    crate::text::subseq_vec(v, 0, k)
}

proof fn lemma_end_underscore_len_bounds(s: Seq<char>)
    ensures
        0 <= end_underscore_len(s) <= s.len(),
    decreases s.len(),
{
    if s.len() > 0 && s.last() == '_' {
        lemma_end_underscore_len_bounds(s.drop_last());
    }
}

/// The final key for a sanitized name: the prefix with trailing underscores
/// stripped, an underscore, and the sanitized name — or the sanitized name
/// alone when the stripped prefix is empty.
pub open spec fn spec_make_key(prefix: Seq<char>, san: Seq<char>) -> Seq<char> {
    let p = strip_trailing_underscores(prefix);
    if p.len() == 0 {
        san
    } else {
        p + seq!['_'] + san
    }
}

/// Exec mirror of [`spec_make_key`], over character vectors.
pub fn make_key_chars(prefix: &Vec<char>, san: &Vec<char>) -> (r: Vec<char>)
    ensures
        r@ == spec_make_key(prefix@, san@),
{
    let mut p = strip_underscores(prefix);
    if p.len() == 0 {
        let mut out: Vec<char> = Vec::new();
        crate::text::push_all(&mut out, san);
        proof {
            assert(out@ =~= san@);
        }
        out
    } else {
        p.push('_');
        crate::text::push_all(&mut p, san);
        proof {
            assert(p@ =~= strip_trailing_underscores(prefix@) + seq!['_'] + san@);
        }
        p
    }
}

/// What normalization makes of a list of raw names: each name is trimmed,
/// empty names are dropped, and each kept name yields the pair of its
/// prefixed sanitized key and the trimmed name itself, in order.
pub open spec fn spec_normalize(names: Seq<Seq<char>>, prefix: Seq<char>) -> Seq<
    (Seq<char>, Seq<char>),
>
    decreases names.len(),
{
    if names.len() == 0 {
        Seq::empty()
    } else {
        let rest = spec_normalize(names.drop_last(), prefix);
        let t = spec_trim(names.last());
        if t.len() == 0 {
            rest
        } else {
            rest.push((spec_make_key(prefix, sanitize(t)), t))
        }
    }
}

/// Turns the raw names a generation attempt produced into localized entries.
pub fn normalize_entries(names: &Vec<String>, prefix: &str) -> (r: Vec<(String, String)>)
    ensures
        entry_views(r@) == spec_normalize(names@.map_values(|s: String| s@), prefix@),
{
    let ghost ns = names@.map_values(|s: String| s@);
    let prefix_chars = str_chars(prefix);
    let n = names.len();
    let mut out: Vec<(String, String)> = Vec::new();
    let mut i: usize = 0;
    while i < n
        invariant
            n == names@.len(),
            i <= n,
            ns == names@.map_values(|s: String| s@),
            prefix_chars@ == prefix@,
            entry_views(out@) == spec_normalize(ns.take(i as int), prefix@),
        decreases n - i,
    {
        proof {
            assert(ns.take(i + 1 as int).drop_last() =~= ns.take(i as int));
            assert(ns.take(i + 1 as int).last() == ns[i as int]);
            assert(ns[i as int] == names@[i as int]@);
        }
        let chars = str_chars(names[i].as_str());
        let t = trim_chars(&chars);
        if t.len() > 0 {
            let san = sanitize_chars(&t);
            let key = make_key_chars(&prefix_chars, &san);
            let ghost out0 = out@;
            out.push((string_from_chars(key), string_from_chars(t)));
            proof {
                assert(entry_views(out@) =~= entry_views(out0).push(
                    (spec_make_key(prefix@, sanitize(spec_trim(ns[i as int]))), spec_trim(
                        ns[i as int],
                    )),
                ));
            }
        }
        i += 1;
    }
    proof {
        assert(ns.take(n as int) =~= ns);
    }
    out
}

/// Every character a sanitized name holds is a key character.
pub proof fn lemma_sanitize_alphabet(s: Seq<char>)
    ensures
        forall|j: int| 0 <= j < sanitize(s).len() ==> is_key_char(#[trigger] sanitize(s)[j]),
{
    assert forall|j: int| 0 <= j < sanitize(s).len() implies is_key_char(
        #[trigger] sanitize(s)[j],
    ) by {
        let c = s[j];
        assert(sanitize(s)[j] == sanitize_char(c));
        if !is_replaced_char(c) && is_alnum_char(c) {
            if is_lower_char(c) {
                lemma_upper_of_lower(c);
            }
        }
    }
}

/// Upper-casing a lower-case ASCII letter yields an upper-case ASCII letter.
pub proof fn lemma_upper_of_lower(c: char)
    requires
        is_lower_char(c),
    ensures
        is_upper_char(upper_char(c)),
{
    assert(65 <= c as u32 - 32 <= 90);
    assert(((c as u32 - 32) as char) as u32 == c as u32 - 32);
}

/// Sanitizing a character a second time changes nothing.
pub proof fn lemma_sanitize_char_idempotent(c: char)
    ensures
        sanitize_char(sanitize_char(c)) == sanitize_char(c),
{
    if !is_replaced_char(c) && is_alnum_char(c) && is_lower_char(c) {
        lemma_upper_of_lower(c);
    }
}

/// Sanitization is idempotent: applying it twice equals applying it once.
pub proof fn lemma_sanitize_idempotent(s: Seq<char>)
    ensures
        sanitize(sanitize(s)) == sanitize(s),
{
    assert forall|j: int| 0 <= j < sanitize(sanitize(s)).len() implies sanitize(sanitize(s))[j]
        == sanitize(s)[j] by {
        lemma_sanitize_char_idempotent(s[j]);
    }
    assert(sanitize(sanitize(s)) =~= sanitize(s));
}

} // verus!
