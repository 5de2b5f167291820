use vstd::prelude::*;

use crate::error::{outcome, Error, Fault};
use crate::text::{backslash_run, chars_of, decimal, push_char, push_decimal, text_of_range};
use crate::value::{entries_view, items_view, lemma_entries_view, lemma_items_view, Tree, Value};

verus! {

/// The deepest level of nesting, counting both containers and resolved
/// placeholders, that an expansion may reach.
pub const TOKEN_RESOLVE_DEPTH_LIMIT: usize = 99;

// ---------------------------------------------------------------------------
// Diagnostic paths
// ---------------------------------------------------------------------------

/// The diagnostic path of the member `key` of the node at `path`.
pub open spec fn child_key_path(path: Seq<char>, key: Seq<char>) -> Seq<char> {
    if path.len() == 0 {
        key
    } else {
        path + seq!['.'] + key
    }
}

/// The diagnostic path of the element `index` of the array at `path`.
pub open spec fn child_index_path(path: Seq<char>, index: nat) -> Seq<char> {
    if path.len() == 0 {
        decimal(index)
    } else {
        path + seq!['['] + decimal(index) + seq![']']
    }
}

/// `current_path.key`, or `key` alone at the root.
pub fn format_new_path(current_path: &str, key: &str) -> (r: String)
    ensures
        r@ == child_key_path(current_path@, key@),
{
    if current_path.is_empty() {
        key.to_owned()
    } else {
        let mut r = current_path.to_owned();
        push_char(&mut r, '.');
        r.append(key);
        r
    }
}

/// `current_path[index]`, or the bare index at the root.
pub fn format_new_array_path(current_path: &str, index: usize) -> (r: String)
    ensures
        r@ == child_index_path(current_path@, index as nat),
{
    if current_path.is_empty() {
        let mut r = String::new();
        push_decimal(&mut r, index);
        proof {
            assert(r@ =~= decimal(index as nat));
        }
        r
    } else {
        let mut r = current_path.to_owned();
        push_char(&mut r, '[');
        push_decimal(&mut r, index);
        push_char(&mut r, ']');
        r
    }
}

// ---------------------------------------------------------------------------
// Backslash escaping
// ---------------------------------------------------------------------------

/// How many of `n` backslashes before a placeholder `process_backslashes`
/// keeps: half of them when the placeholder is live (`n` even), one more than
/// half when it is escaped (`n` odd).
pub open spec fn kept_backslashes(n: nat) -> nat {
    if n % 2 == 0 {
        n / 2
    } else {
        n / 2 + 1
    }
}

/// Splits a run of backslashes into the prefix it collapses to and whether
/// the placeholder after it is live: pairs collapse to one, and an odd run
/// escapes the placeholder. In the escaped case the last kept backslash is
/// the one that did the escaping, and the scanner drops it.
pub fn process_backslashes(backslashes: &str) -> (r: (String, bool))
    ensures
        r.1 == (backslashes@.len() % 2 == 0),
        r.0@ == backslashes@.take(kept_backslashes(backslashes@.len()) as int),
{
    let count = backslashes.unicode_len();
    let should_expand = count % 2 == 0;
    let prefix_count = if should_expand {
        count / 2
    } else {
        count / 2 + 1
    };
    let mut prefix = String::new();
    let mut i: usize = 0;
    while i < prefix_count
        invariant
            prefix_count <= count,
            count == backslashes@.len(),
            i <= prefix_count,
            prefix@ == backslashes@.take(i as int),
        decreases prefix_count - i,
    {
        let c = backslashes.get_char(i);
        push_char(&mut prefix, c);
        i = i + 1;
        proof {
            assert(prefix@ =~= backslashes@.take(i as int));
        }
    }
    (prefix, should_expand)
}

// ---------------------------------------------------------------------------
// Path resolution
// ---------------------------------------------------------------------------

/// The segments of a placeholder's inner text, split on every `.`; an empty
/// text is one empty segment.
pub open spec fn split_dots(s: Seq<char>) -> Seq<Seq<char>>
    decreases s.len(),
{
    if s.len() == 0 {
        seq![Seq::empty()]
    } else {
        let init = split_dots(s.drop_last());
        if s.last() == '.' {
            init.push(Seq::empty())
        } else {
            init.update(init.len() - 1, init.last().push(s.last()))
        }
    }
}

pub open spec fn is_digit(c: char) -> bool {
    '0' <= c && c <= '9'
}

/// The number that a run of decimal digits spells.
pub open spec fn digits_value(s: Seq<char>) -> nat
    decreases s.len(),
{
    if s.len() == 0 {
        0
    } else {
        digits_value(s.drop_last()) * 10 + (s.last() as int - 48) as nat
    }
}

/// The digits of a segment read as an index: all of it after an optional `+`.
pub open spec fn index_digits(seg: Seq<char>) -> Seq<char> {
    if seg.len() > 0 && seg[0] == '+' {
        seg.drop_first()
    } else {
        seg
    }
}

/// The non-negative integer a segment spells (an optional `+`, then one or
/// more decimal digits), if it spells one.
pub open spec fn parse_index(seg: Seq<char>) -> Option<nat> {
    let d = index_digits(seg);
    if d.len() > 0 && forall|i: int| 0 <= i < d.len() ==> is_digit(#[trigger] d[i]) {
        Some(digits_value(d))
    } else {
        None
    }
}

/// `i` is the first entry whose key is `key`.
pub open spec fn is_first_key(entries: Seq<(Seq<char>, Tree)>, key: Seq<char>, i: int) -> bool {
    &&& 0 <= i < entries.len()
    &&& entries[i].0 == key
    &&& forall|j: int| 0 <= j < i ==> (#[trigger] entries[j]).0 != key
}

/// The value of the member `key` of an object.
pub open spec fn lookup_key(entries: Seq<(Seq<char>, Tree)>, key: Seq<char>) -> Option<Tree> {
    if exists|i: int| is_first_key(entries, key, i) {
        Some(entries[choose|i: int| is_first_key(entries, key, i)].1)
    } else {
        None
    }
}

/// One step of a path: a member of an object, or an element of an array when
/// the segment spells an index in range. Anything else is not found.
pub open spec fn child_of(node: Tree, seg: Seq<char>) -> Option<Tree> {
    match node {
        Tree::Object(entries) => lookup_key(entries, seg),
        Tree::Array(items) => match parse_index(seg) {
            Some(i) => if i < items.len() {
                Some(items[i as int])
            } else {
                None
            },
            None => None,
        },
        _ => None,
    }
}

/// The node that `segs` leads to from `root`; the empty path leads to `root`.
pub open spec fn resolve_path(root: Tree, segs: Seq<Seq<char>>) -> Option<Tree>
    decreases segs.len(),
{
    if segs.len() == 0 {
        Some(root)
    } else {
        match resolve_path(root, segs.drop_last()) {
            Some(n) => child_of(n, segs.last()),
            None => None,
        }
    }
}

/// The node that the placeholder text `key` names.
pub open spec fn resolve(root: Tree, key: Seq<char>) -> Option<Tree> {
    resolve_path(root, split_dots(key))
}

/// The element that `seg` names among `len` array elements.
fn index_in_range(seg: &str, len: usize) -> (r: Option<usize>)
    ensures
        r matches Some(i) ==> parse_index(seg@) == Some(i as nat) && i < len,
        r is None ==> !(parse_index(seg@) matches Some(i) && i < len),
{
    let n = seg.unicode_len();
    let mut start: usize = 0;
    if n > 0 && seg.get_char(0) == '+' {
        start = 1;
    }
    if start >= n || len == 0 {
        return None;
    }
    let ghost d = index_digits(seg@);
    assert(d =~= seg@.subrange(start as int, n as int));
    let mut acc: usize = 0;
    let mut over = false;
    let mut i: usize = start;
    while i < n
        invariant
            start <= i <= n,
            n == seg@.len(),
            d == seg@.subrange(start as int, n as int),
            d == index_digits(seg@),
            forall|k: int| 0 <= k < i - start ==> is_digit(#[trigger] d[k]),
            len > 0,
            !over ==> acc as nat == digits_value(d.take(i - start)) && acc < len,
            over ==> digits_value(d.take(i - start)) >= len,
        decreases n - i,
    {
        let c = seg.get_char(i);
        if c < '0' || c > '9' {
            assert(!is_digit(d[i - start]));
            assert(!(forall|k: int| 0 <= k < d.len() ==> is_digit(#[trigger] d[k])));
            assert(parse_index(seg@) is None);
            return None;
        }
        proof {
            assert(d.take(i - start + 1).drop_last() =~= d.take(i - start));
        }
        let v = (c as u32 - 48) as usize;
        if !over {
            let next: u128 = acc as u128 * 10 + v as u128;
            if next >= len as u128 {
                over = true;
            } else {
                acc = next as usize;
            }
        }
        i = i + 1;
    }
    assert(d.take(n - start) =~= d);
    assert(d.len() > 0);
    assert(forall|k: int| 0 <= k < d.len() ==> is_digit(#[trigger] d[k]));
    assert(parse_index(seg@) == Some(digits_value(d)));
    if over {
        None
    } else {
        Some(acc)
    }
}

/// The child of `node` that one path segment names.
fn child<'a>(node: &'a Value, seg: &str) -> (r: Option<&'a Value>)
    ensures
        r matches Some(c) ==> child_of(node@, seg@) == Some(c@),
        r is None ==> child_of(node@, seg@) is None,
{
    match node {
        Value::Object(entries) => {
            let key = seg.to_owned();
            proof {
                lemma_entries_view(entries@);
            }
            let ghost ev = entries_view(entries@);
            assert(node@ == Tree::Object(ev));
            let mut i: usize = 0;
            while i < entries.len()
                invariant
                    i <= entries.len(),
                    ev == entries_view(entries@),
                    node@ == Tree::Object(ev),
                    ev.len() == entries.len(),
                    forall|j: int| 0 <= j < entries.len() ==> #[trigger] ev[j] == (entries@[j].0@, entries@[j].1@),
                    key@ == seg@,
                    forall|j: int| 0 <= j < i ==> (#[trigger] ev[j]).0 != seg@,
                decreases entries.len() - i,
            {
                if entries[i].0 == key {
                    proof {
                        assert(is_first_key(ev, seg@, i as int));
                        let c = choose|c: int| is_first_key(ev, seg@, c);
                        assert(c == i);
                    }
                    return Some(&entries[i].1);
                }
                i = i + 1;
            }
            None
        },
        Value::Array(items) => {
            proof {
                lemma_items_view(items@);
            }
            match index_in_range(seg, items.len()) {
                Some(i) => Some(&items[i]),
                None => None,
            }
        },
        _ => None,
    }
}

/// The segments of `key`, split on every `.`.
fn split_path(key: &str) -> (r: Vec<&str>)
    ensures
        r@.map_values(|s: &str| s@) == split_dots(key@),
{
    let n = key.unicode_len();
    let mut segs: Vec<&str> = Vec::new();
    let mut start: usize = 0;
    let mut i: usize = 0;
    proof {
        assert(key@.take(0) =~= Seq::<char>::empty());
        assert(split_dots(key@.take(0)) =~= segs@.map_values(|s: &str| s@).push(key@.subrange(0, 0)));
    }
    while i < n
        invariant
            n == key@.len(),
            start <= i <= n,
            split_dots(key@.take(i as int)) == segs@.map_values(|s: &str| s@).push(key@.subrange(start as int, i as int)),
        decreases n - i,
    {
        let c = key.get_char(i);
        proof {
            assert(key@.take(i + 1).drop_last() =~= key@.take(i as int));
        }
        if c == '.' {
            let seg = key.substring_char(start, i);
            segs.push(seg);
            start = i + 1;
            proof {
                assert(key@.subrange(start as int, i + 1) =~= Seq::<char>::empty());
            }
        } else {
            proof {
                assert(key@.subrange(start as int, i + 1) =~= key@.subrange(start as int, i as int).push(c));
            }
        }
        i = i + 1;
        proof {
            assert(split_dots(key@.take(i as int)) =~= segs@.map_values(|s: &str| s@).push(key@.subrange(start as int, i as int)));
        }
    }
    let last = key.substring_char(start, n);
    segs.push(last);
    proof {
        assert(key@.take(n as int) =~= key@);
        assert(split_dots(key@) =~= segs@.map_values(|s: &str| s@));
    }
    segs
}

/// The node that `key_path` leads to from `root`, if any.
pub fn get_value_from_path<'a>(key_path: &[&str], root: &'a Value) -> (r: Option<&'a Value>)
    ensures
        r matches Some(v) ==> resolve_path(root@, key_path@.map_values(|s: &str| s@)) == Some(v@),
        r is None ==> resolve_path(root@, key_path@.map_values(|s: &str| s@)) is None,
{
    let ghost segs = key_path@.map_values(|s: &str| s@);
    let mut cur: Option<&Value> = Some(root);
    let mut i: usize = 0;
    while i < key_path.len()
        invariant
            i <= key_path@.len(),
            segs == key_path@.map_values(|s: &str| s@),
            cur matches Some(v) ==> resolve_path(root@, segs.take(i as int)) == Some(v@),
            cur is None ==> resolve_path(root@, segs.take(i as int)) is None,
        decreases key_path.len() - i,
    {
        proof {
            assert(segs.take(i + 1).drop_last() =~= segs.take(i as int));
        }
        if let Some(node) = cur {
            cur = child(node, key_path[i]);
        }
        i = i + 1;
    }
    proof {
        assert(segs.take(key_path@.len() as int) =~= segs);
    }
    cur
}

// ---------------------------------------------------------------------------
// The placeholder grammar
// ---------------------------------------------------------------------------

/// The number of consecutive backslashes in `s` from position `i` on.
pub open spec fn run_length(s: Seq<char>, i: int) -> nat
    decreases s.len() - i,
{
    if 0 <= i < s.len() && s[i] == '\\' {
        1 + run_length(s, i + 1)
    } else {
        0
    }
}

/// The first `}` at or after `k`, unless a line break or the end of `s` comes
/// first.
pub open spec fn closing_brace(s: Seq<char>, k: int) -> Option<int>
    decreases s.len() - k,
{
    if k < 0 || k >= s.len() {
        None
    } else if s[k] == '}' {
        Some(k)
    } else if s[k] == '\n' {
        None
    } else {
        closing_brace(s, k + 1)
    }
}

/// A placeholder occurrence: a run of `backslashes`, then `${`, the inner
/// text `key`, and `}`; `end` is the position just after it.
pub struct Token {
    pub backslashes: nat,
    pub key: Seq<char>,
    pub end: int,
}

/// The placeholder occurrence that starts at position `i` of `s`, if one
/// does: the backslash run is taken whole, and the inner text is the shortest
/// run of characters other than a line break up to a `}`.
pub open spec fn token_at(s: Seq<char>, i: int) -> Option<Token> {
    let n = run_length(s, i);
    let j = i + n;
    if j + 1 < s.len() && s[j] == '$' && s[j + 1] == '{' {
        match closing_brace(s, j + 2) {
            Some(k) => Some(Token { backslashes: n, key: s.subrange(j + 2, k), end: k + 1 }),
            None => None,
        }
    } else {
        None
    }
}

/// The literal text `${key}`.
pub open spec fn placeholder(key: Seq<char>) -> Seq<char> {
    seq!['$', '{'] + key + seq!['}']
}

/// The text a fully expanded value stands for inside a string; `None` for an
/// object or an array, which have no text form.
pub open spec fn text_of(v: Tree) -> Option<Seq<char>> {
    match v {
        Tree::String(s) => Some(s),
        Tree::Number(n) => Some(n),
        Tree::Bool(b) => Some(
            if b {
                seq!['t', 'r', 'u', 'e']
            } else {
                seq!['f', 'a', 'l', 's', 'e']
            },
        ),
        Tree::Null => Some(seq!['n', 'u', 'l', 'l']),
        _ => None,
    }
}

// ---------------------------------------------------------------------------
// The expansion, as a function of the frozen root
// ---------------------------------------------------------------------------

/// The text a string leaf rebuilds from position `i` on, and whether some
/// placeholder in it failed to expand.
pub struct Scan {
    pub text: Seq<char>,
    pub failed: bool,
}

/// `node`, found at `path` and `depth`, with every live placeholder in its
/// strings replaced by what it names in `root`.
pub open spec fn expand_value(root: Tree, node: Tree, depth: nat, path: Seq<char>) -> Result<Tree, Fault>
    decreases TOKEN_RESOLVE_DEPTH_LIMIT + 1 - depth, 1int, 0int,
{
    if depth > TOKEN_RESOLVE_DEPTH_LIMIT {
        Err(Fault::RecursionLimit { depth, path, value: node })
    } else {
        match node {
            Tree::String(s) => {
                let r = scan(root, s, depth, path, 0);
                if r.failed {
                    Err(Fault::RecursionLimit { depth, path, value: Tree::String(r.text) })
                } else {
                    Ok(Tree::String(r.text))
                }
            },
            Tree::Array(items) => match expand_items(root, items, depth, path, items.len()) {
                Ok(out) => Ok(Tree::Array(out)),
                Err(e) => Err(e),
            },
            Tree::Object(entries) => match expand_entries(root, entries, depth, path, entries.len()) {
                Ok(out) => Ok(Tree::Object(out)),
                Err(e) => Err(e),
            },
            _ => Ok(node),
        }
    }
}

/// The first `n` elements of an array, each expanded one level deeper; the
/// first failure, in order, is the result.
pub open spec fn expand_items(root: Tree, items: Seq<Tree>, depth: nat, path: Seq<char>, n: nat) -> Result<Seq<Tree>, Fault>
    decreases TOKEN_RESOLVE_DEPTH_LIMIT + 1 - depth, 0int, n as int,
    when depth <= TOKEN_RESOLVE_DEPTH_LIMIT
{
    if n == 0 {
        Ok(Seq::empty())
    } else {
        match expand_items(root, items, depth, path, (n - 1) as nat) {
            Ok(done) => match expand_value(root, items[n - 1], depth + 1, child_index_path(path, (n - 1) as nat)) {
                Ok(v) => Ok(done.push(v)),
                Err(e) => Err(e),
            },
            Err(e) => Err(e),
        }
    }
}

/// The first `n` entries of an object, each value expanded one level deeper
/// under its key; the first failure, in order, is the result.
pub open spec fn expand_entries(
    root: Tree,
    entries: Seq<(Seq<char>, Tree)>,
    depth: nat,
    path: Seq<char>,
    n: nat,
) -> Result<Seq<(Seq<char>, Tree)>, Fault>
    decreases TOKEN_RESOLVE_DEPTH_LIMIT + 1 - depth, 0int, n as int,
    when depth <= TOKEN_RESOLVE_DEPTH_LIMIT
{
    if n == 0 {
        Ok(Seq::empty())
    } else {
        match expand_entries(root, entries, depth, path, (n - 1) as nat) {
            Ok(done) => {
                let key = entries[n - 1].0;
                match expand_value(root, entries[n - 1].1, depth + 1, child_key_path(path, key)) {
                    Ok(v) => Ok(done.push((key, v))),
                    Err(e) => Err(e),
                }
            },
            Err(e) => Err(e),
        }
    }
}

/// What the live placeholder `${key}` turns into: its literal text when
/// `key` names nothing in `root` or names an object or array, else the text
/// of what it names, expanded one level deeper at `new_path`.
pub open spec fn expand_token_text(root: Tree, key: Seq<char>, new_path: Seq<char>, depth: nat) -> Result<Seq<char>, Fault>
    decreases TOKEN_RESOLVE_DEPTH_LIMIT + 1 - depth, 0int, 0int,
    when depth <= TOKEN_RESOLVE_DEPTH_LIMIT
{
    match resolve(root, key) {
        None => Ok(placeholder(key)),
        Some(v) => match expand_value(root, v, depth + 1, new_path) {
            Ok(e) => match text_of(e) {
                Some(t) => Ok(t),
                None => Ok(placeholder(key)),
            },
            Err(e) => Err(e),
        },
    }
}

/// The rest of a string leaf from position `i` on, rebuilt: text outside
/// placeholders is copied; a run of `n` backslashes before a placeholder
/// becomes `n / 2`; an escaped placeholder (odd `n`) stays literal; a live
/// one is replaced, or stays literal and marks the string failed when its
/// expansion failed. A placeholder whose path is the string's own stops the
/// scan and fails the string.
pub open spec fn scan(root: Tree, s: Seq<char>, depth: nat, path: Seq<char>, i: int) -> Scan
    decreases TOKEN_RESOLVE_DEPTH_LIMIT + 1 - depth, 0int, s.len() - i + 1,
    when depth <= TOKEN_RESOLVE_DEPTH_LIMIT && 0 <= i
{
    if i >= s.len() {
        Scan { text: Seq::empty(), failed: false }
    } else {
        match token_at(s, i) {
            None => {
                let rest = scan(root, s, depth, path, i + 1);
                Scan { text: seq![s[i]] + rest.text, failed: rest.failed }
            },
            Some(t) => {
                proof {
                    lemma_token_at_bounds(s, i);
                }
                let pre = backslash_run(t.backslashes / 2);
                let new_path = child_key_path(path, t.key);
                if t.backslashes % 2 == 1 {
                    let rest = scan(root, s, depth, path, t.end);
                    Scan { text: pre + placeholder(t.key) + rest.text, failed: rest.failed }
                } else if new_path == path {
                    Scan { text: pre + placeholder(t.key), failed: true }
                } else {
                    match expand_token_text(root, t.key, new_path, depth) {
                        Ok(x) => {
                            let rest = scan(root, s, depth, path, t.end);
                            Scan { text: pre + x + rest.text, failed: rest.failed }
                        },
                        Err(_) => {
                            let rest = scan(root, s, depth, path, t.end);
                            Scan { text: pre + placeholder(t.key) + rest.text, failed: true }
                        },
                    }
                }
            },
        }
    }
}

/// The whole tree with every placeholder expanded against itself.
pub open spec fn expand(root: Tree) -> Result<Tree, Fault> {
    expand_value(root, root, 0, Seq::empty())
}

pub proof fn lemma_run_length(s: Seq<char>, i: int)
    requires
        0 <= i,
    ensures
        i + run_length(s, i) <= s.len() || run_length(s, i) == 0,
        forall|j: int| i <= j < i + run_length(s, i) ==> s[j] == '\\',
        i + run_length(s, i) < s.len() ==> s[i + run_length(s, i)] != '\\',
    decreases s.len() - i,
{
    if 0 <= i < s.len() && s[i] == '\\' {
        lemma_run_length(s, i + 1);
    }
}

pub proof fn lemma_closing_brace(s: Seq<char>, k: int)
    ensures
        closing_brace(s, k) matches Some(c) ==> k <= c < s.len() && s[c] == '}',
    decreases s.len() - k,
{
    if 0 <= k < s.len() && s[k] != '}' && s[k] != '\n' {
        lemma_closing_brace(s, k + 1);
    }
}

pub proof fn lemma_token_at_bounds(s: Seq<char>, i: int)
    requires
        0 <= i,
    ensures
        token_at(s, i) matches Some(t) ==> i < t.end <= s.len(),
{
    lemma_run_length(s, i);
    lemma_closing_brace(s, i + run_length(s, i) + 2);
}

// ---------------------------------------------------------------------------
// The engine
// ---------------------------------------------------------------------------

/// The placeholder occurrence at position `i` of `chars`: the length of its
/// backslash run and the position of its closing `}`.
fn find_token(chars: &Vec<char>, i: usize) -> (r: Option<(usize, usize)>)
    requires
        i < chars@.len(),
    ensures
        r matches Some((c, k)) ==> token_at(chars@, i as int) == Some(
            Token { backslashes: c as nat, key: chars@.subrange(i + c + 2, k as int), end: k + 1 },
        ) && i + c + 2 <= k < chars@.len(),
        r is None ==> token_at(chars@, i as int) is None,
{
    let n = chars.len();
    let mut j: usize = i;
    while j < n && chars[j] == '\\'
        invariant
            n == chars@.len(),
            i <= j <= n,
            run_length(chars@, i as int) == (j - i) + run_length(chars@, j as int),
        decreases n - j,
    {
        j = j + 1;
    }
    if n - j < 2 || chars[j] != '$' || chars[j + 1] != '{' {
        return None;
    }
    let mut k: usize = j + 2;
    while k < n
        invariant
            n == chars@.len(),
            j + 2 <= k <= n,
            run_length(chars@, i as int) == j - i,
            chars@[j as int] == '$' && chars@[j + 1] == '{',
            closing_brace(chars@, j + 2) == closing_brace(chars@, k as int),
        decreases n - k,
    {
        let c = chars[k];
        if c == '}' {
            return Some((j - i, k));
        }
        if c == '\n' {
            return None;
        }
        k = k + 1;
    }
    None
}

/// Appends the literal text `${key}` to `out`.
fn push_placeholder(out: &mut String, key: &str)
    ensures
        final(out)@ == old(out)@ + placeholder(key@),
{
    push_char(out, '$');
    push_char(out, '{');
    out.append(key);
    push_char(out, '}');
    proof {
        assert(out@ =~= old(out)@ + placeholder(key@));
    }
}

/// The text that `value` stands for inside a string: a string as it is, a
/// number in its decimal form, `true`, `false` or `null`; `None` for an
/// object or an array.
pub fn convert_value_to_string(value: Value) -> (r: Option<String>)
    ensures
        r matches Some(t) ==> text_of(value@) == Some(t@),
        r is None ==> text_of(value@) is None,
{
    match value {
        Value::String(s) => Some(s),
        Value::Number(n) => Some(n),
        Value::Bool(b) => {
            let t = if b {
                "true".to_owned()
            } else {
                "false".to_owned()
            };
            proof {
                reveal_strlit("true");
                reveal_strlit("false");
            }
            Some(t)
        },
        Value::Null => {
            let t = "null".to_owned();
            proof {
                reveal_strlit("null");
            }
            Some(t)
        },
        _ => None,
    }
}

/// The rebuilt string, or the recursion error that carries it when some
/// placeholder in it failed.
pub fn finalize_expansion(result: String, recursion_detected: bool, current_depth: usize, current_path: &str) -> (r: Result<Value, Error>)
    ensures
        outcome(r) == (if recursion_detected {
            Err(Fault::RecursionLimit { depth: current_depth as nat, path: current_path@, value: Tree::String(result@) })
        } else {
            Ok(Tree::String(result@))
        }),
{
    if recursion_detected {
        Err(Error::TokenRecursionLimitExceeded {
            depth: current_depth,
            path: current_path.to_owned(),
            value: Value::String(result),
        })
    } else {
        Ok(Value::String(result))
    }
}

/// What the live placeholder `${key}` turns into (see `expand_token_text`).
pub fn expand_token(key: &str, root: &Value, new_path: &str, current_depth: usize) -> (r: Result<String, Error>)
    requires
        current_depth <= TOKEN_RESOLVE_DEPTH_LIMIT,
    ensures
        r matches Ok(t) ==> expand_token_text(root@, key@, new_path@, current_depth as nat) == Ok::<Seq<char>, Fault>(t@),
        r matches Err(e) ==> expand_token_text(root@, key@, new_path@, current_depth as nat) == Err::<Seq<char>, Fault>(e@),
    decreases TOKEN_RESOLVE_DEPTH_LIMIT + 1 - current_depth, 0nat,
{
    let key_path = split_path(key);
    match get_value_from_path(key_path.as_slice(), root) {
        None => {
            let mut t = String::new();
            push_placeholder(&mut t, key);
            proof {
                assert(t@ =~= placeholder(key@));
            }
            Ok(t)
        },
        Some(v) => match expand_tokens_helper(v, root, current_depth + 1, new_path) {
            Ok(ev) => match convert_value_to_string(ev) {
                Some(t) => Ok(t),
                None => {
                    let mut t = String::new();
                    push_placeholder(&mut t, key);
                    proof {
                        assert(t@ =~= placeholder(key@));
                    }
                    Ok(t)
                },
            },
            Err(e) => Err(e),
        },
    }
}

/// Expands the placeholders of one string leaf found at `current_path`.
pub fn expand_string(s: &str, root: &Value, current_depth: usize, current_path: &str) -> (r: Result<Value, Error>)
    requires
        current_depth <= TOKEN_RESOLVE_DEPTH_LIMIT,
    ensures
        outcome(r) == expand_value(root@, Tree::String(s@), current_depth as nat, current_path@),
    decreases TOKEN_RESOLVE_DEPTH_LIMIT + 1 - current_depth, 1nat,
{
    let ghost d = current_depth as nat;
    let ghost whole = scan(root@, s@, d, current_path@, 0);
    let chars = chars_of(s);
    let n = chars.len();
    let mut result = String::new();
    let mut recursion_detected = false;
    let mut stopped = false;
    let mut i: usize = 0;
    while i < n
        invariant
            n == s@.len(),
            chars@ == s@,
            i <= n,
            d == current_depth,
            current_depth <= TOKEN_RESOLVE_DEPTH_LIMIT,
            whole == scan(root@, s@, d, current_path@, 0),
            !stopped ==> whole.text == result@ + scan(root@, s@, d, current_path@, i as int).text,
            !stopped ==> whole.failed == (recursion_detected || scan(root@, s@, d, current_path@, i as int).failed),
            stopped ==> whole.text == result@ && whole.failed && recursion_detected,
            stopped ==> i == n,
        decreases n - i,
    {
        let ghost before = result@;
        let ghost rest = scan(root@, s@, d, current_path@, i as int);
        match find_token(&chars, i) {
            None => {
                let c = chars[i];
                push_char(&mut result, c);
                proof {
                    let next = scan(root@, s@, d, current_path@, i + 1);
                    assert(rest.text == seq![c] + next.text);
                    assert(before + rest.text =~= result@ + next.text);
                }
                i = i + 1;
            },
            Some((count, close)) => {
                let ghost t = token_at(s@, i as int)->Some_0;
                proof {
                    lemma_run_length(s@, i as int);
                }
                let run = text_of_range(&chars, i, i + count);
                let key_text = text_of_range(&chars, i + count + 2, close);
                let key = key_text.as_str();
                let (prefix, should_expand) = process_backslashes(run.as_str());
                let ghost pre = backslash_run(t.backslashes / 2);
                let ghost next = scan(root@, s@, d, current_path@, close + 1);
                proof {
                    assert(run@ =~= backslash_run(count as nat));
                }
                if should_expand {
                    proof {
                        assert(prefix@ =~= pre);
                    }
                    result.append(prefix.as_str());
                    let new_path = format_new_path(current_path, key);
                    let here = current_path.to_owned();
                    if new_path == here {
                        recursion_detected = true;
                        stopped = true;
                        push_placeholder(&mut result, key);
                        i = n;
                        proof {
                            assert(rest.text == pre + placeholder(t.key));
                            assert(whole.text =~= result@);
                        }
                    } else {
                        match expand_token(key, root, new_path.as_str(), current_depth) {
                            Ok(replacement) => {
                                result.append(replacement.as_str());
                                proof {
                                    assert(rest.text == pre + replacement@ + next.text);
                                    assert(before + rest.text =~= result@ + next.text);
                                }
                            },
                            Err(_e) => {
                                recursion_detected = true;
                                push_placeholder(&mut result, key);
                                proof {
                                    assert(rest.text == pre + placeholder(t.key) + next.text);
                                    assert(before + rest.text =~= result@ + next.text);
                                }
                            },
                        }
                        i = close + 1;
                    }
                } else {
                    // The last kept backslash is the one that escaped the
                    // placeholder: it does not appear in the output.
                    let kept = prefix.as_str().unicode_len();
                    if kept > 0 {
                        let dropped = prefix.as_str().substring_char(0, kept - 1);
                        proof {
                            assert(dropped@ =~= pre);
                        }
                        result.append(dropped);
                    }
                    push_placeholder(&mut result, key);
                    proof {
                        assert(rest.text == pre + placeholder(t.key) + next.text);
                        assert(before + rest.text =~= result@ + next.text);
                    }
                    i = close + 1;
                }
            },
        }
    }
    finalize_expansion(result, recursion_detected, current_depth, current_path)
}

/// Expands each value of an object one level deeper, keeping the keys.
pub fn expand_object(o: &Vec<(String, Value)>, root: &Value, current_depth: usize, current_path: &str) -> (r: Result<Value, Error>)
    requires
        current_depth <= TOKEN_RESOLVE_DEPTH_LIMIT,
    ensures
        outcome(r) == expand_value(root@, Tree::Object(entries_view(o@)), current_depth as nat, current_path@),
    decreases TOKEN_RESOLVE_DEPTH_LIMIT + 1 - current_depth, 1nat,
{
    let ghost d = current_depth as nat;
    let ghost ev = entries_view(o@);
    proof {
        lemma_entries_view(o@);
    }
    let mut out: Vec<(String, Value)> = Vec::new();
    let mut i: usize = 0;
    while i < o.len()
        invariant
            i <= o.len(),
            d == current_depth,
            current_depth <= TOKEN_RESOLVE_DEPTH_LIMIT,
            ev == entries_view(o@),
            ev.len() == o@.len(),
            forall|j: int| 0 <= j < o@.len() ==> #[trigger] ev[j] == (o@[j].0@, o@[j].1@),
            expand_entries(root@, ev, d, current_path@, i as nat) == Ok::<Seq<(Seq<char>, Tree)>, Fault>(entries_view(out@)),
        decreases o.len() - i,
    {
        let expanded_path = format_new_path(current_path, o[i].0.as_str());
        match expand_tokens_helper(&o[i].1, root, current_depth + 1, expanded_path.as_str()) {
            Ok(v) => {
                let k = o[i].0.clone();
                proof {
                    assert(out@.push((k, v)).subrange(0, out@.len() as int) =~= out@);
                }
                out.push((k, v));
                i = i + 1;
            },
            Err(e) => {
                proof {
                    lemma_entries_err(root@, ev, d, current_path@, (i + 1) as nat, ev.len());
                }
                return Err(e);
            },
        }
    }
    Ok(Value::Object(out))
}

/// Expands each element of an array one level deeper.
pub fn expand_array(arr: &[Value], root: &Value, current_depth: usize, current_path: &str) -> (r: Result<Value, Error>)
    requires
        current_depth <= TOKEN_RESOLVE_DEPTH_LIMIT,
    ensures
        outcome(r) == expand_value(root@, Tree::Array(items_view(arr@)), current_depth as nat, current_path@),
    decreases TOKEN_RESOLVE_DEPTH_LIMIT + 1 - current_depth, 1nat,
{
    let ghost d = current_depth as nat;
    let ghost iv = items_view(arr@);
    proof {
        lemma_items_view(arr@);
    }
    let mut out: Vec<Value> = Vec::new();
    let mut i: usize = 0;
    while i < arr.len()
        invariant
            i <= arr@.len(),
            d == current_depth,
            current_depth <= TOKEN_RESOLVE_DEPTH_LIMIT,
            iv == items_view(arr@),
            iv.len() == arr@.len(),
            forall|j: int| 0 <= j < arr@.len() ==> #[trigger] iv[j] == arr@[j]@,
            expand_items(root@, iv, d, current_path@, i as nat) == Ok::<Seq<Tree>, Fault>(items_view(out@)),
        decreases arr@.len() - i,
    {
        let expanded_path = format_new_array_path(current_path, i);
        match expand_tokens_helper(&arr[i], root, current_depth + 1, expanded_path.as_str()) {
            Ok(v) => {
                proof {
                    assert(out@.push(v).subrange(0, out@.len() as int) =~= out@);
                }
                out.push(v);
                i = i + 1;
            },
            Err(e) => {
                proof {
                    lemma_items_err(root@, iv, d, current_path@, (i + 1) as nat, iv.len());
                }
                return Err(e);
            },
        }
    }
    Ok(Value::Array(out))
}

/// Expands `val`, found at `current_path` and `current_depth`, against
/// `root`.
pub fn expand_tokens_helper(val: &Value, root: &Value, current_depth: usize, current_path: &str) -> (r: Result<Value, Error>)
    ensures
        outcome(r) == expand_value(root@, val@, current_depth as nat, current_path@),
    decreases TOKEN_RESOLVE_DEPTH_LIMIT + 1 - current_depth, 2nat,
{
    if current_depth > TOKEN_RESOLVE_DEPTH_LIMIT {
        return Err(Error::TokenRecursionLimitExceeded {
            depth: current_depth,
            path: current_path.to_owned(),
            value: val.deep_copy(),
        });
    }
    match val {
        Value::String(s) => expand_string(s.as_str(), root, current_depth, current_path),
        Value::Object(o) => expand_object(o, root, current_depth, current_path),
        Value::Array(arr) => expand_array(arr.as_slice(), root, current_depth, current_path),
        _ => Ok(val.deep_copy()),
    }
}

/// Expands every `${path}` placeholder in the string leaves of `val`,
/// resolving each path against `val` itself.
pub fn expand_tokens(val: &Value) -> (r: Result<Value, Error>)
    ensures
        outcome(r) == expand(val@),
{
    let here = "";
    proof {
        reveal_strlit("");
        assert(here@ =~= Seq::<char>::empty());
    }
    expand_tokens_helper(val, val, 0, here)
}

/// Once the first `m` entries fail, so do the first `n` for every `n >= m`.
pub(crate) proof fn lemma_entries_err(root: Tree, entries: Seq<(Seq<char>, Tree)>, depth: nat, path: Seq<char>, m: nat, n: nat)
    requires
        depth <= TOKEN_RESOLVE_DEPTH_LIMIT,
        m <= n,
        expand_entries(root, entries, depth, path, m) is Err,
    ensures
        expand_entries(root, entries, depth, path, n) == expand_entries(root, entries, depth, path, m),
    decreases n,
{
    if n > m {
        lemma_entries_err(root, entries, depth, path, m, (n - 1) as nat);
    }
}

/// Once the first `m` elements fail, so do the first `n` for every `n >= m`.
proof fn lemma_items_err(root: Tree, items: Seq<Tree>, depth: nat, path: Seq<char>, m: nat, n: nat)
    requires
        depth <= TOKEN_RESOLVE_DEPTH_LIMIT,
        m <= n,
        expand_items(root, items, depth, path, m) is Err,
    ensures
        expand_items(root, items, depth, path, n) == expand_items(root, items, depth, path, m),
    decreases n,
{
    if n > m {
        lemma_items_err(root, items, depth, path, m, (n - 1) as nat);
    }
}

} // verus!
