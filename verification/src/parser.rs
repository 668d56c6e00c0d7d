use vstd::prelude::*;

use crate::table::{entry_views, spec_insert, KeyTable};
use crate::text::{
    find_char, first_index_of, lemma_first_index_of, push_all, repeat_char, skip_ws,
    skip_ws_from, spec_trim, str_chars, string_from_chars, subseq_vec, trim_chars,
};

verus! {

/// The view of an optional string.
pub open spec fn opt_view(o: Option<String>) -> Option<Seq<char>> {
    match o {
        Some(s) => Some(s@),
        None => None,
    }
}

/// The view of a list of strings.
pub open spec fn strs_view(v: Seq<String>) -> Seq<Seq<char>> {
    v.map_values(|s: String| s@)
}

/// The model of one open scope.
#[verifier::ext_equal]
pub ghost struct ScopeV {
    pub key: Seq<char>,
    pub indent: int,
    pub theme: Option<Seq<char>>,
    pub kvs: Seq<Seq<char>>,
    pub prefix: Option<Seq<char>>,
    pub has_data: bool,
    pub child_count: int,
    pub path: Seq<Seq<char>>,
}

/// The model of a close waiting for its generated entries.
#[verifier::ext_equal]
pub ghost struct PendingV {
    pub line: Seq<char>,
    pub indent: int,
}

/// The model of the whole pass: context stack, pending metadata, output
/// lines, and the global key table.
#[verifier::ext_equal]
pub ghost struct StateV {
    pub stack: Seq<ScopeV>,
    pub pending_theme: Option<Seq<char>>,
    pub pending_kvs: Seq<Seq<char>>,
    pub pending_prefix: Option<Seq<char>>,
    pub output: Seq<Seq<char>>,
    pub table: Seq<(Seq<char>, Seq<char>)>,
    pub pending_close: Option<PendingV>,
}

/// The model of a generation request handed to the cache-backed generator.
#[verifier::ext_equal]
pub ghost struct RequestV {
    pub theme: Seq<char>,
    pub prefix: Seq<char>,
    pub cache_name: Seq<char>,
    pub indent: int,
}

/// One open scope of the structure document.
pub struct Scope {
    pub key: String,
    pub indent: usize,
    pub theme: Option<String>,
    pub kv_inserts: Vec<String>,
    pub prefix: Option<String>,
    pub has_data: bool,
    pub child_count: usize,
    pub path: Vec<String>,
}

impl Scope {
    pub open spec fn view(&self) -> ScopeV {
        ScopeV {
            key: self.key@,
            indent: self.indent as int,
            theme: opt_view(self.theme),
            kvs: strs_view(self.kv_inserts@),
            prefix: opt_view(self.prefix),
            has_data: self.has_data,
            child_count: self.child_count as int,
            path: strs_view(self.path@),
        }
    }
}

/// What the parser asks the generator for when a leaf scope closes.
pub struct GenRequest {
    pub theme: String,
    pub prefix: String,
    pub cache_name: String,
    pub indent: usize,
}

impl GenRequest {
    pub open spec fn view(&self) -> RequestV {
        RequestV {
            theme: self.theme@,
            prefix: self.prefix@,
            cache_name: self.cache_name@,
            indent: self.indent as int,
        }
    }
}

/// The view of an optional generation request.
pub open spec fn req_view(r: Option<GenRequest>) -> Option<RequestV> {
    match r {
        Some(q) => Some(q@),
        None => None,
    }
}

struct PendingClose {
    line: String,
    indent: usize,
}

/// A scope qualifies as a leaf at close time iff its theme is set, no child
/// scope closed inside it, and no literal content line marked it.
pub open spec fn is_leaf(sc: ScopeV) -> bool {
    sc.child_count == 0 && !sc.has_data && sc.theme is Some
}

/// A trimmed line that opens a scope: it ends in an opening brace.
pub open spec fn is_open_line(t: Seq<char>) -> bool {
    t.len() > 0 && t.last() == '{'
}

/// A trimmed line that closes a scope: a bare closing brace.
pub open spec fn is_close_line(t: Seq<char>) -> bool {
    t.len() == 1 && t[0] == '}'
}

/// A trimmed comment line: it starts with the comment marker.
pub open spec fn is_comment_line(t: Seq<char>) -> bool {
    t.len() > 0 && t[0] == '#'
}

/// The marker that makes a comment set the pending prefix.
pub open spec fn prefix_marker() -> Seq<char> {
    seq!['p', 'r', 'e', 'f', 'i', 'x', ':']
}

/// `n` spaces (none for a negative count).
pub open spec fn indent_sp(n: int) -> Seq<char> {
    if n >= 0 {
        Seq::new(n as nat, |i: int| ' ')
    } else {
        Seq::empty()
    }
}

/// The column depth of a line: its count of leading whitespace characters.
pub open spec fn indent_of(line: Seq<char>) -> int {
    skip_ws(line, 0)
}

/// The literal insertion a `key = value` comment turns into.
pub open spec fn kv_text(c: Seq<char>) -> Seq<char> {
    let i = first_index_of(c, '=');
    spec_trim(c.take(i)) + seq![' ', '=', ' '] + spec_trim(c.skip(i + 1))
}

/// What a comment line does to the pending metadata: an assignment becomes a
/// literal insertion, a prefix marker sets the pending prefix, anything else
/// becomes the pending theme; only the last pending theme or prefix before an
/// open survives.
pub open spec fn spec_comment(st: StateV, c: Seq<char>) -> StateV {
    if first_index_of(c, '=') != -1 {
        StateV { pending_kvs: st.pending_kvs.push(kv_text(c)), ..st }
    } else if c.len() >= 7 && c.take(7) == prefix_marker() {
        StateV { pending_prefix: Some(spec_trim(c.skip(7))), ..st }
    } else {
        StateV { pending_theme: Some(c), ..st }
    }
}

/// The key of a scope-open line: the trimmed text before the assignment
/// character if there is one, else the whole trimmed line.
pub open spec fn open_key(t: Seq<char>) -> Seq<char> {
    let i = first_index_of(t, '=');
    if i == -1 {
        t
    } else {
        spec_trim(t.take(i))
    }
}

/// What a scope-open line does: a new scope is pushed carrying the pending
/// metadata (the prefix falling back to the parent's), the line is emitted,
/// and each pending literal insertion is emitted four columns deeper.
pub open spec fn spec_open(st: StateV, line: Seq<char>, t: Seq<char>) -> StateV {
    let key = open_key(t);
    let parent_path: Seq<Seq<char>> = if st.stack.len() > 0 {
        st.stack.last().path
    } else {
        Seq::empty()
    };
    let parent_prefix: Option<Seq<char>> = if st.stack.len() > 0 {
        st.stack.last().prefix
    } else {
        None
    };
    let sc = ScopeV {
        key: key,
        indent: indent_of(line),
        theme: st.pending_theme,
        kvs: st.pending_kvs,
        prefix: if st.pending_prefix is Some {
            st.pending_prefix
        } else {
            parent_prefix
        },
        has_data: false,
        child_count: 0,
        path: parent_path.push(key),
    };
    let kv_lines = kv_lines_of(st.pending_kvs, indent_of(line));
    StateV {
        stack: st.stack.push(sc),
        pending_theme: None,
        pending_kvs: Seq::empty(),
        pending_prefix: None,
        output: st.output + seq![line] + kv_lines,
        ..st
    }
}

/// The lines the pending literal insertions become under a scope opened at
/// the given column: each is emitted four columns deeper.
pub open spec fn kv_lines_of(kvs: Seq<Seq<char>>, ind: int) -> Seq<Seq<char>>
    decreases kvs.len(),
{
    if kvs.len() == 0 {
        Seq::empty()
    } else {
        kv_lines_of(kvs.drop_last(), ind).push(indent_sp(ind + 4) + kvs.last())
    }
}

/// The lines a list of generated entries becomes under a block at the given
/// column: one line per entry key, four columns deeper.
pub open spec fn entry_lines_of(entries: Seq<(Seq<char>, Seq<char>)>, ind: int) -> Seq<Seq<char>>
    decreases entries.len(),
{
    if entries.len() == 0 {
        Seq::empty()
    } else {
        entry_lines_of(entries.drop_last(), ind).push(entry_line(ind, entries.last().0))
    }
}

/// A closed child counts as data for its parent: the nearest open scope, if
/// any, gains a child and is marked as holding data.
pub open spec fn bump_parent(stack: Seq<ScopeV>) -> Seq<ScopeV> {
    if stack.len() == 0 {
        stack
    } else {
        stack.update(
            stack.len() - 1,
            ScopeV { child_count: stack.last().child_count + 1, has_data: true, ..stack.last() },
        )
    }
}

/// The scope path joined with underscores, naming the leaf's cache document.
pub open spec fn join_underscore(path: Seq<Seq<char>>) -> Seq<char>
    decreases path.len(),
{
    if path.len() == 0 {
        Seq::empty()
    } else if path.len() == 1 {
        path[0]
    } else {
        join_underscore(path.drop_last()) + seq!['_'] + path.last()
    }
}

/// Whether a passthrough line marks the current scope as holding data: it
/// does iff it contains an assignment or separator character.
pub open spec fn has_data_mark(t: Seq<char>) -> bool {
    first_index_of(t, '=') != -1 || first_index_of(t, ',') != -1
}

/// Marks the nearest open scope, if any, as holding data.
pub open spec fn mark_data(stack: Seq<ScopeV>) -> Seq<ScopeV> {
    if stack.len() == 0 {
        stack
    } else {
        stack.update(stack.len() - 1, ScopeV { has_data: true, ..stack.last() })
    }
}

/// The request a qualifying leaf close raises.
pub open spec fn request_of(sc: ScopeV) -> RequestV {
    RequestV {
        theme: sc.theme->0,
        prefix: if sc.prefix is Some {
            sc.prefix->0
        } else {
            Seq::empty()
        },
        cache_name: join_underscore(sc.path),
        indent: sc.indent,
    }
}

/// One parse step: what a single line of the structure document does to the
/// state, and whether it raises a generation request. A close of a leaf scope
/// leaves the close pending until the entries arrive; an unmatched close is
/// tolerated silently.
pub open spec fn spec_step(st: StateV, line: Seq<char>) -> (StateV, Option<RequestV>) {
    let t = spec_trim(line);
    if is_comment_line(t) {
        (spec_comment(st, spec_trim(t.skip(1))), None)
    } else if is_open_line(t) {
        (spec_open(st, line, t), None)
    } else if is_close_line(t) {
        if st.stack.len() > 0 && is_leaf(st.stack.last()) {
            (
                StateV {
                    stack: st.stack.drop_last(),
                    pending_close: Some(
                        PendingV { line: line, indent: st.stack.last().indent },
                    ),
                    ..st
                },
                Some(request_of(st.stack.last())),
            )
        } else {
            let stack2 = if st.stack.len() > 0 {
                st.stack.drop_last()
            } else {
                st.stack
            };
            (StateV { stack: bump_parent(stack2), output: st.output.push(line), ..st }, None)
        }
    } else {
        (
            StateV {
                stack: if has_data_mark(t) {
                    mark_data(st.stack)
                } else {
                    st.stack
                },
                output: st.output.push(line),
                ..st
            },
            None,
        )
    }
}

/// The line a generated entry becomes, four columns deeper than its block.
pub open spec fn entry_line(indent: int, key: Seq<char>) -> Seq<char> {
    indent_sp(indent + 4) + key + seq![',']
}

/// All entries inserted in order, first write winning for each key.
pub open spec fn insert_all(
    t: Seq<(Seq<char>, Seq<char>)>,
    entries: Seq<(Seq<char>, Seq<char>)>,
) -> Seq<(Seq<char>, Seq<char>)>
    decreases entries.len(),
{
    if entries.len() == 0 {
        t
    } else {
        insert_all(spec_insert(t, entries[0].0, entries[0].1), entries.drop_first())
    }
}

/// What supplying the generated entries for a pending leaf close does: each
/// entry becomes its own line before the closing line, each pair goes to the
/// table first-write-wins, and the parent gains the closed child.
pub open spec fn spec_provide(st: StateV, entries: Seq<(Seq<char>, Seq<char>)>) -> StateV {
    let p = st.pending_close->0;
    let lines = entry_lines_of(entries, p.indent);
    StateV {
        stack: bump_parent(st.stack),
        output: st.output + lines + seq![p.line],
        table: insert_all(st.table, entries),
        pending_close: None,
        ..st
    }
}

/// Bounds the exec representation: child counts never outrun the output (so
/// they fit a machine word), and recorded indents leave room for the four
/// columns entries are shifted by.
pub open spec fn spec_wf(st: StateV) -> bool {
    &&& forall|i: int|
        0 <= i < st.stack.len() ==> 0 <= #[trigger] st.stack[i].child_count <= st.output.len()
    &&& forall|i: int|
        0 <= i < st.stack.len() ==> 0 <= #[trigger] st.stack[i].indent
            && st.stack[i].indent + 4 <= usize::MAX
    &&& (st.pending_close is Some ==> 0 <= st.pending_close->0.indent
        && st.pending_close->0.indent + 4 <= usize::MAX)
}

/// The single-pass structure parser: it consumes the document line by line,
/// tracks the nesting context, raises a generation request when a leaf scope
/// closes, and accumulates the output lines and the key table.
pub struct Expander {
    stack: Vec<Scope>,
    pending_theme: Option<String>,
    pending_kvs: Vec<String>,
    pending_prefix: Option<String>,
    output: Vec<String>,
    table: KeyTable,
    pending_close: Option<PendingClose>,
}

impl Expander {
    pub closed spec fn view(&self) -> StateV {
        StateV {
            stack: self.stack@.map_values(|sc: Scope| sc@),
            pending_theme: opt_view(self.pending_theme),
            pending_kvs: strs_view(self.pending_kvs@),
            pending_prefix: opt_view(self.pending_prefix),
            output: strs_view(self.output@),
            table: self.table@,
            pending_close: match self.pending_close {
                Some(ref p) => Some(PendingV { line: p.line@, indent: p.indent as int }),
                None => None,
            },
        }
    }

    /// A fresh pass: no scopes, no pending metadata, empty output and table.
    pub fn new() -> (r: Expander)
        ensures
            r@ == (StateV {
                stack: Seq::empty(),
                pending_theme: None,
                pending_kvs: Seq::empty(),
                pending_prefix: None,
                output: Seq::empty(),
                table: Seq::empty(),
                pending_close: None,
            }),
            spec_wf(r@),
    {
        let r = Expander {
            stack: Vec::new(),
            pending_theme: None,
            pending_kvs: Vec::new(),
            pending_prefix: None,
            output: Vec::new(),
            table: KeyTable::new(),
            pending_close: None,
        };
        proof {
            assert(r@.stack =~= Seq::<ScopeV>::empty());
            assert(r@.pending_kvs =~= Seq::<Seq<char>>::empty());
            assert(r@.output =~= Seq::<Seq<char>>::empty());
        }
        r
    }

    /// Whether a leaf close is waiting for its generated entries.
    pub fn awaiting_entries(&self) -> (r: bool)
        ensures
            r == (self@.pending_close is Some),
    {
        self.pending_close.is_some()
    }

    fn handle_comment(&mut self, t: &Vec<char>)
        requires
            is_comment_line(t@),
        ensures
            final(self)@ == spec_comment(old(self)@, spec_trim(t@.skip(1))),
    {
        let body = subseq_vec(t, 1, t.len());
        proof {
            assert(body@ =~= t@.skip(1));
        }
        let c = trim_chars(&body);
        match find_char(&c, '=') {
            Some(i) => {
                proof {
                    lemma_first_index_of(c@, '=');
                }
                assert(i < c@.len());
                let k = subseq_vec(&c, 0, i);
                let rest = subseq_vec(&c, i + 1, c.len());
                proof {
                    assert(k@ =~= c@.take(i as int));
                    assert(rest@ =~= c@.skip(i + 1));
                }
                let mut kv = trim_chars(&k);
                kv.push(' ');
                kv.push('=');
                kv.push(' ');
                let v = trim_chars(&rest);
                push_all(&mut kv, &v);
                let ghost kvs0 = strs_view(self.pending_kvs@);
                self.pending_kvs.push(string_from_chars(kv));
                proof {
                    assert(kv@ =~= kv_text(c@));
                    assert(strs_view(self.pending_kvs@) =~= kvs0.push(kv_text(c@)));
                    assert(self@ =~~= spec_comment(old(self)@, spec_trim(t@.skip(1))));
                }
            },
            None => {
                let is_prefix = c.len() >= 7 && c[0] == 'p' && c[1] == 'r' && c[2] == 'e' && c[3]
                    == 'f' && c[4] == 'i' && c[5] == 'x' && c[6] == ':';
                proof {
                    if c@.len() >= 7 {
                        assert(c@.take(7) =~= prefix_marker() <==> (c@[0] == 'p' && c@[1] == 'r'
                            && c@[2] == 'e' && c@[3] == 'f' && c@[4] == 'i' && c@[5] == 'x'
                            && c@[6] == ':')) by {
                            if c@.take(7) =~= prefix_marker() {
                                assert(c@.take(7)[0] == c@[0]);
                            }
                        }
                    }
                }
                if is_prefix {
                    let rest = subseq_vec(&c, 7, c.len());
                    proof {
                        assert(rest@ =~= c@.skip(7));
                    }
                    let p = trim_chars(&rest);
                    self.pending_prefix = Some(string_from_chars(p));
                    proof {
                        assert(self@ =~~= spec_comment(old(self)@, spec_trim(t@.skip(1))));
                    }
                } else {
                    self.pending_theme = Some(string_from_chars(c));
                    proof {
                        assert(self@ =~~= spec_comment(old(self)@, spec_trim(t@.skip(1))));
                    }
                }
            },
        }
    }

    fn handle_open(&mut self, line: &str, chars: &Vec<char>, t: &Vec<char>)
        requires
            chars@ == line@,
            t@ == spec_trim(line@),
            is_open_line(t@),
            spec_wf(old(self)@),
            line@.len() + 4 <= usize::MAX,
        ensures
            final(self)@ == spec_open(old(self)@, line@, t@),
            spec_wf(final(self)@),
    {
        let key_chars = match find_char(t, '=') {
            Some(i) => {
                proof {
                    lemma_first_index_of(t@, '=');
                }
                assert(i < t@.len());
                let head = subseq_vec(t, 0, i);
                proof {
                    assert(head@ =~= t@.take(i as int));
                }
                let kc = trim_chars(&head);
                assert(kc@ == open_key(t@));
                kc
            },
            None => {
                let mut k: Vec<char> = Vec::new();
                push_all(&mut k, t);
                proof {
                    assert(k@ =~= t@);
                }
                assert(k@ == open_key(t@));
                k
            },
        };
        let indent = skip_ws_from(chars, 0);
        let key = string_from_chars(key_chars);
        let (parent_path, parent_prefix): (Vec<String>, Option<String>) = if self.stack.len()
            > 0 {
            let last = &self.stack[self.stack.len() - 1];
            proof {
                assert(old(self)@.stack.last() == last@);
            }
            (clone_strings(&last.path), clone_opt_string(&last.prefix))
        } else {
            (Vec::new(), None)
        };
        proof {
            if old(self)@.stack.len() > 0 {
                assert(strs_view(parent_path@) == old(self)@.stack.last().path);
                assert(opt_view(parent_prefix) == old(self)@.stack.last().prefix);
            } else {
                assert(strs_view(parent_path@) =~= Seq::<Seq<char>>::empty());
            }
        }
        let ghost pp = strs_view(parent_path@);
        let mut path = parent_path;
        path.push(key.clone());
        proof {
            assert(strs_view(path@) =~= pp.push(key@));
        }
        let cur_prefix = match self.pending_prefix.take() {
            Some(p) => Some(p),
            None => parent_prefix,
        };
        let sc = Scope {
            key: key,
            indent: indent,
            theme: self.pending_theme.take(),
            kv_inserts: take_strings(&mut self.pending_kvs),
            prefix: cur_prefix,
            has_data: false,
            child_count: 0,
            path: path,
        };
        let ghost st_mid = self@;
        let ghost out0 = strs_view(self.output@);
        self.output.push(line.to_owned());
        proof {
            assert(strs_view(self.output@) =~= out0.push(line@));
        }
        let n = sc.kv_inserts.len();
        let ghost kvs = strs_view(sc.kv_inserts@);
        let ghost ind = indent_of(line@);
        let mut i: usize = 0;
        while i < n
            invariant
                n == sc.kv_inserts@.len(),
                i <= n,
                kvs == strs_view(sc.kv_inserts@),
                ind == indent_of(line@),
                indent as int == ind,
                indent + 4 <= usize::MAX,
                strs_view(self.output@) == out0.push(line@) + kv_lines_of(
                    kvs.take(i as int),
                    ind,
                ),
                self@.stack == st_mid.stack,
                self@.pending_theme == st_mid.pending_theme,
                self@.pending_kvs == st_mid.pending_kvs,
                self@.pending_prefix == st_mid.pending_prefix,
                self@.table == st_mid.table,
                self@.pending_close == st_mid.pending_close,
            decreases n - i,
        {
            let mut kv_line = repeat_char(' ', indent + 4);
            let kv_chars = str_chars(sc.kv_inserts[i].as_str());
            push_all(&mut kv_line, &kv_chars);
            let ghost outp = strs_view(self.output@);
            self.output.push(string_from_chars(kv_line));
            proof {
                assert(kvs.take(i + 1 as int).drop_last() =~= kvs.take(i as int));
                assert(kvs.take(i + 1 as int).last() == kvs[i as int]);
                assert(indent_sp(ind + 4) =~= Seq::new((indent + 4) as nat, |j: int| ' '));
                assert(kv_line@ =~= indent_sp(ind + 4) + kvs[i as int]);
                assert(strs_view(self.output@) =~= outp.push(indent_sp(ind + 4) + kvs[i as int]));
                assert(strs_view(self.output@) =~= out0.push(line@) + kv_lines_of(
                    kvs.take(i + 1 as int),
                    ind,
                ));
            }
            i += 1;
        }
        let ghost stack0 = self@.stack;
        let ghost scv = sc@;
        self.stack.push(sc);
        proof {
            assert(kvs.take(n as int) =~= kvs);
            assert(self@.stack =~= stack0.push(scv));
            let st2 = spec_open(old(self)@, line@, t@);
            assert(scv.key == st2.stack.last().key);
            assert(scv.indent == st2.stack.last().indent);
            assert(scv.theme == st2.stack.last().theme);
            assert(scv.kvs == st2.stack.last().kvs);
            assert(scv.prefix == st2.stack.last().prefix);
            assert(scv.path =~~= st2.stack.last().path);
            assert(self@.stack.last() =~~= st2.stack.last());
            assert(self@.stack =~~= st2.stack);
            assert(self@.output =~= out0.push(line@) + kv_lines_of(kvs, ind));
            assert(self@.output =~~= st2.output);
            assert(self@ =~~= st2);
            assert forall|j: int| 0 <= j < self@.stack.len() implies 0 <= #[trigger] self@.stack[j].child_count
                <= self@.output.len() && 0 <= self@.stack[j].indent && self@.stack[j].indent + 4
                <= usize::MAX by {
                if j < self@.stack.len() - 1 {
                    assert(self@.stack[j] == old(self)@.stack[j]);
                }
            }
        }
    }

    fn handle_close(&mut self, line: &str) -> (r: Option<GenRequest>)
        requires
            is_close_line(spec_trim(line@)),
            old(self)@.pending_close is None,
            spec_wf(old(self)@),
        ensures
            final(self)@ == spec_step(old(self)@, line@).0,
            req_view(r) == spec_step(old(self)@, line@).1,
            spec_wf(final(self)@),
    {
        match self.stack.pop() {
            Some(sc) => {
                if sc.child_count == 0 && !sc.has_data && sc.theme.is_some() {
                    let theme = match sc.theme {
                        Some(th) => th,
                        None => String::new(),
                    };
                    let prefix = match sc.prefix {
                        Some(p) => p,
                        None => String::new(),
                    };
                    let cache_name = join_path(&sc.path);
                    self.pending_close = Some(
                        PendingClose { line: line.to_owned(), indent: sc.indent },
                    );
                    let req = GenRequest {
                        theme: theme,
                        prefix: prefix,
                        cache_name: cache_name,
                        indent: sc.indent,
                    };
                    proof {
                        let (st2, rq) = spec_step(old(self)@, line@);
                        assert(old(self)@.stack.last() == sc@);
                        assert(self@.stack =~= old(self)@.stack.drop_last());
                        assert(self@ =~~= st2);
                        assert(req@ =~~= rq->0);
                    }
                    Some(req)
                } else {
                    let ghost out0 = strs_view(self.output@);
                    self.output.push(line.to_owned());
                    let out_len = self.output.len();
                    proof {
                        assert(strs_view(self.output@).len() == out_len as int);
                        if self@.stack.len() > 0 {
                            assert(self@.stack.last() == old(self)@.stack[old(self)@.stack.len()
                                - 2]);
                        }
                    }
                    self.bump_top();
                    proof {
                        let (st2, rq) = spec_step(old(self)@, line@);
                        assert(old(self)@.stack.last() == sc@);
                        assert(strs_view(self.output@) =~= out0.push(line@));
                        assert(self@.stack =~= bump_parent(old(self)@.stack.drop_last()));
                        assert(self@ =~~= st2);
                    }
                    None
                }
            },
            None => {
                let ghost out0 = strs_view(self.output@);
                self.output.push(line.to_owned());
                proof {
                    let (st2, rq) = spec_step(old(self)@, line@);
                    assert(strs_view(self.output@) =~= out0.push(line@));
                    assert(old(self)@.stack.len() == 0);
                    assert(bump_parent(old(self)@.stack) == old(self)@.stack);
                    assert(self@ =~~= st2);
                }
                None
            },
        }
    }

    /// Increments the child count of the nearest open scope and marks it as
    /// holding data; with no open scope, does nothing.
    fn bump_top(&mut self)
        requires
            old(self)@.stack.len() > 0 ==> 0 <= old(self)@.stack.last().child_count
                && old(self)@.stack.last().child_count + 1 <= usize::MAX,
        ensures
            final(self)@ == (StateV { stack: bump_parent(old(self)@.stack), ..old(self)@ }),
    {
        match self.stack.pop() {
            Some(mut sc) => {
                assert(old(self)@.stack.last() == sc@);
                sc.child_count = sc.child_count + 1;
                sc.has_data = true;
                let ghost popped = self@.stack;
                self.stack.push(sc);
                proof {
                    assert(self@.stack =~= popped.push(sc@));
                    assert(self@.stack =~~= bump_parent(old(self)@.stack));
                    assert(self@ =~~= (StateV { stack: bump_parent(old(self)@.stack), ..old(
                        self,
                    )@ }));
                }
            },
            None => {
                proof {
                    assert(self@ =~~= (StateV { stack: bump_parent(old(self)@.stack), ..old(
                        self,
                    )@ }));
                }
            },
        }
    }

    /// Consumes one line of the structure document. A returned request means
    /// a leaf scope closed: the caller obtains its generated entries and
    /// hands them back through [`Expander::provide`] before the next line.
    pub fn step(&mut self, line: &str) -> (r: Option<GenRequest>)
        requires
            old(self)@.pending_close is None,
            spec_wf(old(self)@),
            line@.len() + 4 <= usize::MAX,
        ensures
            final(self)@ == spec_step(old(self)@, line@).0,
            req_view(r) == spec_step(old(self)@, line@).1,
            spec_wf(final(self)@),
            (r is Some) == (final(self)@.pending_close is Some),
    {
        let chars = str_chars(line);
        let t = trim_chars(&chars);
        if t.len() > 0 && t[0] == '#' {
            self.handle_comment(&t);
            proof {
                let st2 = spec_comment(old(self)@, spec_trim(spec_trim(line@).skip(1)));
                assert(self@ =~~= st2);
            }
            None
        } else if t.len() > 0 && t[t.len() - 1] == '{' {
            proof {
                assert(t@.last() == t@[t@.len() - 1]);
            }
            self.handle_open(line, &chars, &t);
            None
        } else if t.len() == 1 && t[0] == '}' {
            self.handle_close(line)
        } else {
            let ghost out0 = strs_view(self.output@);
            let marks = match find_char(&t, '=') {
                Some(_) => true,
                None => {
                    match find_char(&t, ',') {
                        Some(_) => true,
                        None => false,
                    }
                },
            };
            if marks {
                self.mark_top();
            }
            self.output.push(line.to_owned());
            proof {
                let (st2, rq) = spec_step(old(self)@, line@);
                assert(marks == has_data_mark(spec_trim(line@)));
                assert(strs_view(self.output@) =~= out0.push(line@));
                assert(self@ =~~= st2);
            }
            None
        }
    }

    /// Marks the nearest open scope, if any, as holding data.
    fn mark_top(&mut self)
        ensures
            final(self)@ == (StateV { stack: mark_data(old(self)@.stack), ..old(self)@ }),
    {
        match self.stack.pop() {
            Some(mut sc) => {
                assert(old(self)@.stack.last() == sc@);
                sc.has_data = true;
                let ghost popped = self@.stack;
                self.stack.push(sc);
                proof {
                    assert(self@.stack =~= popped.push(sc@));
                    assert(self@.stack =~~= mark_data(old(self)@.stack));
                    assert(self@ =~~= (StateV { stack: mark_data(old(self)@.stack), ..old(
                        self,
                    )@ }));
                }
            },
            None => {
                proof {
                    assert(self@ =~~= (StateV { stack: mark_data(old(self)@.stack), ..old(
                        self,
                    )@ }));
                }
            },
        }
    }

    /// Hands the generated entries for the pending leaf close back to the
    /// parser: each entry is written as its own line before the closing line,
    /// the table takes each pair first-write-wins, and the parent scope gains
    /// the closed child.
    pub fn provide(&mut self, entries: Vec<(String, String)>)
        requires
            old(self)@.pending_close is Some,
            spec_wf(old(self)@),
        ensures
            final(self)@ == spec_provide(old(self)@, entry_views(entries@)),
            spec_wf(final(self)@),
            final(self)@.pending_close is None,
    {
        let p = match self.pending_close.take() {
            Some(p) => p,
            None => PendingClose { line: String::new(), indent: 0 },
        };
        let ghost es = entry_views(entries@);
        let ghost pv = old(self)@.pending_close->0;
        let ghost out0 = strs_view(self.output@);
        let ghost tab0 = self@.table;
        let n = entries.len();
        let mut i: usize = 0;
        while i < n
            invariant
                n == entries@.len(),
                i <= n,
                es == entry_views(entries@),
                pv.indent == p.indent as int,
                p.indent + 4 <= usize::MAX,
                strs_view(self.output@) == out0 + entry_lines_of(es.take(i as int), pv.indent),
                self@.table == insert_all(tab0, es.take(i as int)),
                self@.stack == old(self)@.stack,
                self@.pending_theme == old(self)@.pending_theme,
                self@.pending_kvs == old(self)@.pending_kvs,
                self@.pending_prefix == old(self)@.pending_prefix,
                self@.pending_close is None,
            decreases n - i,
        {
            let mut line = repeat_char(' ', p.indent + 4);
            let key_chars = str_chars(entries[i].0.as_str());
            push_all(&mut line, &key_chars);
            line.push(',');
            let ghost outp = strs_view(self.output@);
            self.output.push(string_from_chars(line));
            let ghost tabp = self@.table;
            self.table.insert(entries[i].0.clone(), entries[i].1.clone());
            proof {
                assert(es.take(i + 1 as int).drop_last() =~= es.take(i as int));
                assert(es.take(i + 1 as int).last() == es[i as int]);
                assert(indent_sp(pv.indent + 4) =~= Seq::new((p.indent + 4) as nat, |j: int| ' '));
                assert(line@ =~= entry_line(pv.indent, es[i as int].0));
                assert(strs_view(self.output@) =~= outp.push(entry_line(pv.indent, es[i as int].0)));
                assert(strs_view(self.output@) =~= out0 + entry_lines_of(
                    es.take(i + 1 as int),
                    pv.indent,
                ));
                assert(self@.table == spec_insert(tabp, es[i as int].0, es[i as int].1));
                lemma_insert_all_snoc(tab0, es.take(i as int), es[i as int]);
                assert(es.take(i as int).push(es[i as int]) =~= es.take(i + 1 as int));
            }
            i += 1;
        }
        self.output.push(p.line);
        let out_len = self.output.len();
        proof {
            assert(strs_view(self.output@).len() == out_len as int);
        }
        self.bump_top();
        proof {
            assert(es.take(n as int) =~= es);
            let st2 = spec_provide(old(self)@, es);
            assert(strs_view(self.output@) =~= out0 + entry_lines_of(es, pv.indent) + seq![
                pv.line,
            ]);
            assert(self@.stack =~= bump_parent(old(self)@.stack));
            assert(self@ =~~= st2);
        }
    }

    /// The transformed structure document: the output lines joined by
    /// newlines.
    pub fn output_doc(&self) -> (r: String)
        ensures
            r@ == join_lines(self@.output),
    {
        join_strings(&self.output, '\n')
    }

    /// The localization document: the root label line, then one line per
    /// table entry, in insertion order.
    pub fn localisation_doc(&self) -> (r: String)
        ensures
            r@ == loc_doc(self@.table),
    {
        let mut acc: Vec<char> = Vec::new();
        acc.push('l');
        acc.push('_');
        acc.push('e');
        acc.push('n');
        acc.push('g');
        acc.push('l');
        acc.push('i');
        acc.push('s');
        acc.push('h');
        acc.push(':');
        acc.push('\n');
        proof {
            assert(acc@ =~= loc_header());
        }
        let entries = self.table.entries();
        let ghost tab = self@.table;
        let n = entries.len();
        let mut i: usize = 0;
        while i < n
            invariant
                n == entries@.len(),
                entry_views(entries@) == tab,
                i <= n,
                acc@ == loc_doc(tab.take(i as int)),
            decreases n - i,
        {
            proof {
                assert(tab.take(i + 1 as int).drop_last() =~= tab.take(i as int));
                assert(tab.take(i + 1 as int).last() == tab[i as int]);
            }
            acc.push(' ');
            acc.push(' ');
            acc.push(' ');
            acc.push(' ');
            let key_chars = str_chars(entries[i].0.as_str());
            push_all(&mut acc, &key_chars);
            acc.push(':');
            acc.push('0');
            acc.push(' ');
            acc.push('"');
            let val_chars = str_chars(entries[i].1.as_str());
            push_all(&mut acc, &val_chars);
            acc.push('"');
            acc.push('\n');
            proof {
                assert(tab[i as int] == (entries@[i as int].0@, entries@[i as int].1@));
                assert(acc@ =~= loc_doc(tab.take(i as int)) + loc_line(
                    tab[i as int].0,
                    tab[i as int].1,
                ));
            }
            i += 1;
        }
        proof {
            assert(tab.take(n as int) =~= tab);
        }
        string_from_chars(acc)
    }

    /// The key table accumulated so far.
    pub fn table_view(&self) -> (r: &KeyTable)
        ensures
            r@ == self@.table,
    {
        &self.table
    }
}

/// Inserting a sequence of entries and then one more is inserting the
/// extended sequence.
proof fn lemma_insert_all_snoc(
    t: Seq<(Seq<char>, Seq<char>)>,
    entries: Seq<(Seq<char>, Seq<char>)>,
    e: (Seq<char>, Seq<char>),
)
    ensures
        insert_all(t, entries.push(e)) == spec_insert(insert_all(t, entries), e.0, e.1),
    decreases entries.len(),
{
    let p = entries.push(e);
    if entries.len() == 0 {
        assert(p[0] == e);
        assert(p.drop_first() =~= Seq::<(Seq<char>, Seq<char>)>::empty());
        assert(insert_all(t, p) == insert_all(spec_insert(t, p[0].0, p[0].1), p.drop_first()));
        assert(insert_all(t, p) == spec_insert(t, e.0, e.1));
        assert(insert_all(t, entries) == t);
    } else {
        assert(p.drop_first() =~= entries.drop_first().push(e));
        assert(p[0] == entries[0]);
        assert(insert_all(t, p) == insert_all(
            spec_insert(t, entries[0].0, entries[0].1),
            entries.drop_first().push(e),
        ));
        lemma_insert_all_snoc(spec_insert(t, entries[0].0, entries[0].1), entries.drop_first(), e);
        assert(insert_all(t, entries) == insert_all(
            spec_insert(t, entries[0].0, entries[0].1),
            entries.drop_first(),
        ));
    }
}

/// The output lines joined by newlines.
pub open spec fn join_lines(lines: Seq<Seq<char>>) -> Seq<char>
    decreases lines.len(),
{
    if lines.len() == 0 {
        Seq::empty()
    } else if lines.len() == 1 {
        lines[0]
    } else {
        join_lines(lines.drop_last()) + seq!['\n'] + lines.last()
    }
}

/// The root label line of the localization document.
pub open spec fn loc_header() -> Seq<char> {
    seq!['l', '_', 'e', 'n', 'g', 'l', 'i', 's', 'h', ':', '\n']
}

/// One localization line: four spaces, the key, `:0`, and the quoted name.
pub open spec fn loc_line(key: Seq<char>, val: Seq<char>) -> Seq<char> {
    seq![' ', ' ', ' ', ' '] + key + seq![':', '0', ' ', '"'] + val + seq!['"', '\n']
}

/// The whole localization document for a table.
pub open spec fn loc_doc(t: Seq<(Seq<char>, Seq<char>)>) -> Seq<char>
    decreases t.len(),
{
    if t.len() == 0 {
        loc_header()
    } else {
        loc_doc(t.drop_last()) + loc_line(t.last().0, t.last().1)
    }
}

/// Joins strings with a separator character.
fn join_strings(v: &Vec<String>, sep: char) -> (r: String)
    requires
        sep == '\n',
    ensures
        r@ == join_lines(strs_view(v@)),
{
    let ghost lines = strs_view(v@);
    let mut acc: Vec<char> = Vec::new();
    let n = v.len();
    let mut i: usize = 0;
    while i < n
        invariant
            n == v@.len(),
            lines == strs_view(v@),
            sep == '\n',
            i <= n,
            acc@ == join_lines(lines.take(i as int)),
        decreases n - i,
    {
        proof {
            assert(lines.take(i + 1 as int).drop_last() =~= lines.take(i as int));
            assert(lines.take(i + 1 as int).last() == lines[i as int]);
        }
        if i > 0 {
            acc.push(sep);
        }
        let chars = str_chars(v[i].as_str());
        push_all(&mut acc, &chars);
        proof {
            if i == 0 {
                assert(acc@ =~= join_lines(lines.take(1)));
            } else {
                assert(acc@ =~= join_lines(lines.take(i as int)) + seq!['\n'] + lines[i as int]);
            }
        }
        i += 1;
    }
    proof {
        assert(lines.take(n as int) =~= lines);
    }
    string_from_chars(acc)
}

/// The scope path joined with underscores, for the leaf's cache document.
pub fn join_path(path: &Vec<String>) -> (r: String)
    ensures
        r@ == join_underscore(strs_view(path@)),
{
    let ghost ps = strs_view(path@);
    let mut acc: Vec<char> = Vec::new();
    let n = path.len();
    let mut i: usize = 0;
    while i < n
        invariant
            n == path@.len(),
            ps == strs_view(path@),
            i <= n,
            acc@ == join_underscore(ps.take(i as int)),
        decreases n - i,
    {
        proof {
            assert(ps.take(i + 1 as int).drop_last() =~= ps.take(i as int));
            assert(ps.take(i + 1 as int).last() == ps[i as int]);
        }
        if i > 0 {
            acc.push('_');
        }
        let chars = str_chars(path[i].as_str());
        push_all(&mut acc, &chars);
        proof {
            if i == 0 {
                assert(acc@ =~= join_underscore(ps.take(1)));
            } else {
                assert(acc@ =~= join_underscore(ps.take(i as int)) + seq!['_'] + ps[i as int]);
            }
        }
        i += 1;
    }
    proof {
        assert(ps.take(n as int) =~= ps);
    }
    string_from_chars(acc)
}

/// Clones a list of strings.
fn clone_strings(v: &Vec<String>) -> (r: Vec<String>)
    ensures
        strs_view(r@) == strs_view(v@),
{
    let mut out: Vec<String> = Vec::new();
    let n = v.len();
    let mut i: usize = 0;
    while i < n
        invariant
            n == v@.len(),
            i <= n,
            out@.len() == i,
            forall|j: int| 0 <= j < i ==> #[trigger] out@[j]@ == v@[j]@,
        decreases n - i,
    {
        let x = v[i].clone();
        out.push(x);
        i += 1;
    }
    proof {
        assert forall|j: int| 0 <= j < n implies strs_view(out@)[j] == strs_view(v@)[j] by {
            assert(out@[j]@ == v@[j]@);
        }
        assert(strs_view(out@) =~= strs_view(v@));
    }
    out
}

/// Clones an optional string.
fn clone_opt_string(o: &Option<String>) -> (r: Option<String>)
    ensures
        opt_view(r) == opt_view(*o),
{
    match o {
        Some(s) => Some(s.clone()),
        None => None,
    }
}

/// Moves the pending literal insertions out, leaving none pending.
fn take_strings(v: &mut Vec<String>) -> (r: Vec<String>)
    ensures
        strs_view(r@) == strs_view(old(v)@),
        final(v)@.len() == 0,
{
    let mut out: Vec<String> = Vec::new();
    core::mem::swap(v, &mut out);
    out
}

/// Leaf qualification, as the step function decides it: a close line raises
/// a generation request iff the closing scope's theme is set, it has no
/// child scopes, and no literal content line marked it.
pub proof fn lemma_leaf_qualification(st: StateV, line: Seq<char>)
    requires
        st.stack.len() > 0,
        is_close_line(spec_trim(line)),
    ensures
        (spec_step(st, line).1 is Some) <==> (st.stack.last().theme is Some
            && st.stack.last().child_count == 0 && !st.stack.last().has_data),
{
    let t = spec_trim(line);
    assert(!is_comment_line(t));
    assert(!is_open_line(t));
}

} // verus!
