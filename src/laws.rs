use vstd::prelude::*;

use crate::error::Fault;
use crate::text::backslash_run;
use crate::token_expander::{
    child_index_path, child_key_path, closing_brace, expand, expand_entries, expand_items,
    child_of, expand_token_text, is_first_key, resolve_path, lemma_entries_err, lemma_token_at_bounds, split_dots,
    expand_value, placeholder, resolve, run_length, scan, token_at, Scan, Token,
    TOKEN_RESOLVE_DEPTH_LIMIT,
};
use crate::value::Tree;

verus! {

/// No string anywhere in `node` holds a placeholder occurrence.
pub open spec fn placeholder_free(node: Tree) -> bool
    decreases node,
{
    match node {
        Tree::String(s) => forall|i: int| 0 <= i < s.len() ==> #[trigger] token_at(s, i) is None,
        Tree::Array(items) => forall|i: int|
            0 <= i < items.len() ==> placeholder_free(#[trigger] items[i]),
        Tree::Object(entries) => forall|i: int|
            0 <= i < entries.len() ==> placeholder_free((#[trigger] entries[i]).1),
        _ => true,
    }
}

/// Containers in `node` nest at most `levels` deep.
pub open spec fn nests_within(node: Tree, levels: nat) -> bool
    decreases node,
{
    match node {
        Tree::Array(items) => levels > 0 && forall|i: int|
            0 <= i < items.len() ==> nests_within(#[trigger] items[i], (levels - 1) as nat),
        Tree::Object(entries) => levels > 0 && forall|i: int|
            0 <= i < entries.len() ==> nests_within((#[trigger] entries[i]).1, (levels - 1) as nat),
        _ => true,
    }
}

/// A string without placeholder occurrences is copied as it is.
proof fn lemma_scan_plain(root: Tree, s: Seq<char>, depth: nat, path: Seq<char>, i: int)
    requires
        depth <= TOKEN_RESOLVE_DEPTH_LIMIT,
        0 <= i <= s.len(),
        forall|j: int| 0 <= j < s.len() ==> #[trigger] token_at(s, j) is None,
    ensures
        scan(root, s, depth, path, i) == (Scan { text: s.skip(i), failed: false }),
    decreases s.len() - i,
{
    if i < s.len() {
        assert(token_at(s, i) is None);
        lemma_scan_plain(root, s, depth, path, i + 1);
        assert(seq![s[i]] + s.skip(i + 1) =~= s.skip(i));
    } else {
        assert(s.skip(i) =~= Seq::<char>::empty());
    }
}

proof fn lemma_value_unchanged(root: Tree, node: Tree, depth: nat, path: Seq<char>)
    requires
        depth <= TOKEN_RESOLVE_DEPTH_LIMIT,
        placeholder_free(node),
        nests_within(node, (TOKEN_RESOLVE_DEPTH_LIMIT - depth) as nat),
    ensures
        expand_value(root, node, depth, path) == Ok::<Tree, Fault>(node),
    decreases node, 0nat,
{
    match node {
        Tree::String(s) => {
            lemma_scan_plain(root, s, depth, path, 0);
            assert(s.skip(0) =~= s);
        },
        Tree::Array(items) => {
            lemma_items_unchanged(root, items, depth, path, items.len());
            assert(items.take(items.len() as int) =~= items);
        },
        Tree::Object(entries) => {
            lemma_entries_unchanged(root, entries, depth, path, entries.len());
            assert(entries.take(entries.len() as int) =~= entries);
        },
        _ => {},
    }
}

proof fn lemma_items_unchanged(root: Tree, items: Seq<Tree>, depth: nat, path: Seq<char>, n: nat)
    requires
        depth < TOKEN_RESOLVE_DEPTH_LIMIT,
        n <= items.len(),
        forall|i: int| 0 <= i < items.len() ==> placeholder_free(#[trigger] items[i]),
        forall|i: int|
            0 <= i < items.len() ==> nests_within(
                #[trigger] items[i],
                (TOKEN_RESOLVE_DEPTH_LIMIT - depth - 1) as nat,
            ),
    ensures
        expand_items(root, items, depth, path, n) == Ok::<Seq<Tree>, Fault>(items.take(n as int)),
    decreases items, n,
{
    if n > 0 {
        lemma_items_unchanged(root, items, depth, path, (n - 1) as nat);
        lemma_value_unchanged(root, items[n - 1], depth + 1, child_index_path(path, (n - 1) as nat));
        assert(items.take(n - 1).push(items[n - 1]) =~= items.take(n as int));
    } else {
        assert(items.take(0) =~= Seq::<Tree>::empty());
    }
}

proof fn lemma_entries_unchanged(
    root: Tree,
    entries: Seq<(Seq<char>, Tree)>,
    depth: nat,
    path: Seq<char>,
    n: nat,
)
    requires
        depth < TOKEN_RESOLVE_DEPTH_LIMIT,
        n <= entries.len(),
        forall|i: int| 0 <= i < entries.len() ==> placeholder_free((#[trigger] entries[i]).1),
        forall|i: int|
            0 <= i < entries.len() ==> nests_within(
                (#[trigger] entries[i]).1,
                (TOKEN_RESOLVE_DEPTH_LIMIT - depth - 1) as nat,
            ),
    ensures
        expand_entries(root, entries, depth, path, n) == Ok::<Seq<(Seq<char>, Tree)>, Fault>(
            entries.take(n as int),
        ),
    decreases entries, n,
{
    if n > 0 {
        lemma_entries_unchanged(root, entries, depth, path, (n - 1) as nat);
        let e = entries[n - 1];
        lemma_value_unchanged(root, e.1, depth + 1, child_key_path(path, e.0));
        assert(entries.take(n - 1).push((e.0, e.1)) =~= entries.take(n as int));
    } else {
        assert(entries.take(0) =~= Seq::<(Seq<char>, Tree)>::empty());
    }
}

/// Expanding a tree in which no string holds a placeholder returns the tree
/// unchanged, provided its containers nest no deeper than the depth ceiling
/// (a deeper tree fails on the ceiling whatever its strings hold).
pub proof fn law_expand_without_placeholders_is_identity(root: Tree)
    requires
        placeholder_free(root),
        nests_within(root, TOKEN_RESOLVE_DEPTH_LIMIT as nat),
    ensures
        expand(root) == Ok::<Tree, Fault>(root),
{
    lemma_value_unchanged(root, root, 0, Seq::empty());
}

/// A placeholder's inner text that ends at the first `}`: it holds neither a
/// `}` nor a line break.
pub open spec fn plain_key(x: Seq<char>) -> bool {
    forall|i: int| 0 <= i < x.len() ==> #[trigger] x[i] != '}' && x[i] != '\n'
}

proof fn lemma_run_length_exact(s: Seq<char>, i: int, n: int)
    requires
        0 <= i <= n < s.len(),
        forall|j: int| i <= j < n ==> s[j] == '\\',
        s[n] != '\\',
    ensures
        run_length(s, i) == n - i,
    decreases n - i,
{
    if i < n {
        lemma_run_length_exact(s, i + 1, n);
    }
}

proof fn lemma_closing_brace_exact(s: Seq<char>, k: int, m: int)
    requires
        0 <= k <= m < s.len(),
        forall|j: int| k <= j < m ==> s[j] != '}' && s[j] != '\n',
        s[m] == '}',
    ensures
        closing_brace(s, k) == Some(m),
    decreases m - k,
{
    if k < m {
        lemma_closing_brace_exact(s, k + 1, m);
    }
}

/// `n` backslashes followed by `${x}` is one placeholder occurrence, the
/// whole string.
proof fn lemma_single_token(n: nat, x: Seq<char>)
    requires
        plain_key(x),
    ensures
        token_at(backslash_run(n) + placeholder(x), 0) == Some(
            Token { backslashes: n, key: x, end: (n + x.len() + 3) as int },
        ),
{
    let s = backslash_run(n) + placeholder(x);
    let ni = n as int;
    let xl = x.len() as int;
    assert(s.len() == ni + xl + 3);
    assert(s[ni] == '$');
    assert(s[ni + 1] == '{');
    assert(s[ni + xl + 2] == '}');
    assert forall|j: int| 0 <= j < ni implies s[j] == '\\' by {}
    assert forall|j: int| ni + 2 <= j < ni + xl + 2 implies s[j] != '}' && s[j] != '\n' by {
        assert(s[j] == x[j - ni - 2]);
    }
    lemma_run_length_exact(s, 0, ni);
    lemma_closing_brace_exact(s, ni + 2, ni + xl + 2);
    assert(s.subrange(ni + 2, ni + xl + 2) =~= x);
}

/// A placeholder after one backslash is escaped: the backslash is dropped
/// and the placeholder stays as literal text, whatever its path names.
pub proof fn law_single_backslash_escapes(root: Tree, x: Seq<char>, depth: nat, path: Seq<char>)
    requires
        plain_key(x),
        depth <= TOKEN_RESOLVE_DEPTH_LIMIT,
    ensures
        expand_value(root, Tree::String(seq!['\\'] + placeholder(x)), depth, path) == Ok::<Tree, Fault>(
            Tree::String(placeholder(x)),
        ),
{
    let s = backslash_run(1) + placeholder(x);
    assert(s =~= seq!['\\'] + placeholder(x));
    lemma_single_token(1, x);
    let rest = scan(root, s, depth, path, s.len() as int);
    assert(rest.text =~= Seq::<char>::empty());
    assert(backslash_run(0) + placeholder(x) + rest.text =~= placeholder(x));
}

/// Two backslashes before a placeholder become one literal backslash in
/// front of what the placeholder alone expands to: its replacement, or the
/// literal placeholder when its path names nothing; and the string fails
/// exactly when the placeholder alone does.
pub proof fn law_double_backslash_expands(root: Tree, x: Seq<char>, depth: nat, path: Seq<char>)
    requires
        plain_key(x),
        depth <= TOKEN_RESOLVE_DEPTH_LIMIT,
        path.len() > 0 || x.len() > 0,
    ensures
        expand_value(root, Tree::String(placeholder(x)), depth, path) matches Ok(Tree::String(t))
            ==> expand_value(root, Tree::String(seq!['\\', '\\'] + placeholder(x)), depth, path)
            == Ok::<Tree, Fault>(Tree::String(seq!['\\'] + t)),
        expand_value(root, Tree::String(placeholder(x)), depth, path) is Err
            <==> expand_value(root, Tree::String(seq!['\\', '\\'] + placeholder(x)), depth, path) is Err,
        resolve(root, x) is None ==> expand_value(
            root,
            Tree::String(seq!['\\', '\\'] + placeholder(x)),
            depth,
            path,
        ) == Ok::<Tree, Fault>(Tree::String(seq!['\\'] + placeholder(x))),
{
    let live = backslash_run(0) + placeholder(x);
    let two = backslash_run(2) + placeholder(x);
    assert(live =~= placeholder(x));
    assert(two =~= seq!['\\', '\\'] + placeholder(x));
    lemma_single_token(0, x);
    lemma_single_token(2, x);
    assert(child_key_path(path, x) != path) by {
        if path.len() > 0 {
            assert(child_key_path(path, x).len() > path.len());
        } else {
            assert(child_key_path(path, x) == x);
        }
    }
    let live_rest = scan(root, live, depth, path, live.len() as int);
    let two_rest = scan(root, two, depth, path, two.len() as int);
    assert(live_rest.text =~= Seq::<char>::empty());
    assert(two_rest.text =~= Seq::<char>::empty());
    assert(backslash_run(0) =~= Seq::<char>::empty());
    assert(backslash_run(1) =~= seq!['\\']);
    let a = scan(root, live, depth, path, 0);
    let b = scan(root, two, depth, path, 0);
    assert(b.failed == a.failed);
    assert(b.text =~= seq!['\\'] + a.text);
    if resolve(root, x) is None {
        assert(expand_token_text(root, x, child_key_path(path, x), depth) == Ok::<Seq<char>, Fault>(
            placeholder(x),
        ));
        assert(a.text =~= placeholder(x));
    }
}

/// Where a value stands does not change what it expands to: once it expands
/// at depth `da` and a non-empty path `pa`, it expands to the same tree at
/// any depth `db <= da` and any other non-empty path `pb`. So a placeholder
/// in an array element or a nested object resolves as it would in a
/// top-level string.
pub proof fn law_expansion_independent_of_position(
    root: Tree,
    node: Tree,
    da: nat,
    pa: Seq<char>,
    db: nat,
    pb: Seq<char>,
)
    requires
        db <= da,
        pa.len() > 0,
        pb.len() > 0,
        expand_value(root, node, da, pa) is Ok,
    ensures
        expand_value(root, node, db, pb) == expand_value(root, node, da, pa),
    decreases TOKEN_RESOLVE_DEPTH_LIMIT + 1 - da, 1int, 0int,
{
    match node {
        Tree::String(s) => {
            lemma_scan_moves(root, s, da, pa, db, pb, 0);
        },
        Tree::Array(items) => {
            lemma_items_moves(root, items, da, pa, db, pb, items.len());
        },
        Tree::Object(entries) => {
            lemma_entries_moves(root, entries, da, pa, db, pb, entries.len());
        },
        _ => {},
    }
}

proof fn lemma_scan_moves(root: Tree, s: Seq<char>, da: nat, pa: Seq<char>, db: nat, pb: Seq<char>, i: int)
    requires
        db <= da <= TOKEN_RESOLVE_DEPTH_LIMIT,
        pa.len() > 0,
        pb.len() > 0,
        0 <= i,
        !scan(root, s, da, pa, i).failed,
    ensures
        scan(root, s, db, pb, i) == scan(root, s, da, pa, i),
    decreases TOKEN_RESOLVE_DEPTH_LIMIT + 1 - da, 0int, s.len() - i + 1,
{
    if i < s.len() {
        lemma_token_at_bounds(s, i);
        match token_at(s, i) {
            None => {
                lemma_scan_moves(root, s, da, pa, db, pb, i + 1);
            },
            Some(t) => {
                let npa = child_key_path(pa, t.key);
                let npb = child_key_path(pb, t.key);
                assert(npa.len() > pa.len());
                assert(npb.len() > pb.len());
                assert(npa != pa);
                assert(npb != pb);
                if t.backslashes % 2 == 0 {
                    if let Some(v) = resolve(root, t.key) {
                        if expand_value(root, v, da + 1, npa) is Ok {
                            law_expansion_independent_of_position(root, v, da + 1, npa, db + 1, npb);
                        }
                    }
                    assert(expand_token_text(root, t.key, npa, da) is Ok);
                    assert(expand_token_text(root, t.key, npb, db) == expand_token_text(root, t.key, npa, da));
                }
                assert(!scan(root, s, da, pa, t.end).failed);
                lemma_scan_moves(root, s, da, pa, db, pb, t.end);
            },
        }
    }
}

proof fn lemma_items_moves(root: Tree, items: Seq<Tree>, da: nat, pa: Seq<char>, db: nat, pb: Seq<char>, n: nat)
    requires
        db <= da <= TOKEN_RESOLVE_DEPTH_LIMIT,
        pa.len() > 0,
        pb.len() > 0,
        expand_items(root, items, da, pa, n) is Ok,
    ensures
        expand_items(root, items, db, pb, n) == expand_items(root, items, da, pa, n),
    decreases TOKEN_RESOLVE_DEPTH_LIMIT + 1 - da, 0int, n as int,
{
    if n > 0 {
        let k = (n - 1) as nat;
        lemma_items_moves(root, items, da, pa, db, pb, k);
        assert(child_index_path(pa, k).len() > 0);
        assert(child_index_path(pb, k).len() > 0);
        law_expansion_independent_of_position(
            root,
            items[k as int],
            da + 1,
            child_index_path(pa, k),
            db + 1,
            child_index_path(pb, k),
        );
    }
}

proof fn lemma_entries_moves(
    root: Tree,
    entries: Seq<(Seq<char>, Tree)>,
    da: nat,
    pa: Seq<char>,
    db: nat,
    pb: Seq<char>,
    n: nat,
)
    requires
        db <= da <= TOKEN_RESOLVE_DEPTH_LIMIT,
        pa.len() > 0,
        pb.len() > 0,
        expand_entries(root, entries, da, pa, n) is Ok,
    ensures
        expand_entries(root, entries, db, pb, n) == expand_entries(root, entries, da, pa, n),
    decreases TOKEN_RESOLVE_DEPTH_LIMIT + 1 - da, 0int, n as int,
{
    if n > 0 {
        let k = (n - 1) as nat;
        let key = entries[k as int].0;
        lemma_entries_moves(root, entries, da, pa, db, pb, k);
        assert(child_key_path(pa, key).len() > 0);
        assert(child_key_path(pb, key).len() > 0);
        law_expansion_independent_of_position(
            root,
            entries[k as int].1,
            da + 1,
            child_key_path(pa, key),
            db + 1,
            child_key_path(pb, key),
        );
    }
}

proof fn lemma_split_without_dots(k: Seq<char>)
    requires
        forall|i: int| 0 <= i < k.len() ==> #[trigger] k[i] != '.',
    ensures
        split_dots(k) == seq![k],
    decreases k.len(),
{
    if k.len() > 0 {
        lemma_split_without_dots(k.drop_last());
        assert(k.drop_last().push(k.last()) =~= k);
        assert(split_dots(k) =~= seq![k]);
    } else {
        assert(k =~= Seq::<char>::empty());
    }
}

/// The keys `k` of an object that a placeholder `${k}` can name on its own:
/// non-empty, without `.`, `}` or a line break.
pub open spec fn member_key(k: Seq<char>) -> bool {
    &&& k.len() > 0
    &&& plain_key(k)
    &&& forall|i: int| 0 <= i < k.len() ==> #[trigger] k[i] != '.'
}

/// In an object with unique keys, the placeholder text of a member's key
/// names that member's value.
proof fn lemma_resolve_member(entries: Seq<(Seq<char>, Tree)>, idx: int)
    requires
        Tree::Object(entries).keys_unique(),
        0 <= idx < entries.len(),
        member_key(entries[idx].0),
    ensures
        resolve(Tree::Object(entries), entries[idx].0) == Some(entries[idx].1),
{
    let root = Tree::Object(entries);
    let k = entries[idx].0;
    lemma_split_without_dots(k);
    assert(is_first_key(entries, k, idx));
    let c = choose|c: int| is_first_key(entries, k, c);
    assert(c == idx);
    assert(seq![k].drop_last() =~= Seq::<Seq<char>>::empty());
    assert(resolve_path(root, Seq::<Seq<char>>::empty()) == Some(root));
    assert(child_of(root, k) == Some(entries[idx].1));
}

/// Placeholders that name each other in a ring, `${ks[0]}` naming the string
/// `${ks[1]}` and so on back to `${ks[0]}`, fail at every depth; below the
/// ceiling the error is reported where the string stands.
proof fn lemma_cycle_fails(root: Tree, ks: Seq<Seq<char>>, i: int, depth: nat, path: Seq<char>)
    requires
        ks.len() > 0,
        0 <= i < ks.len(),
        path.len() > 0,
        forall|j: int| 0 <= j < ks.len() ==> plain_key(#[trigger] ks[j]),
        forall|j: int|
            0 <= j < ks.len() ==> resolve(root, #[trigger] ks[j]) == Some(
                Tree::String(placeholder(ks[(j + 1) % (ks.len() as int)])),
            ),
    ensures
        expand_value(root, Tree::String(placeholder(ks[i])), depth, path) == Err::<Tree, Fault>(
            Fault::RecursionLimit { depth, path, value: Tree::String(placeholder(ks[i])) },
        ),
    decreases TOKEN_RESOLVE_DEPTH_LIMIT + 1 - depth,
{
    if depth <= TOKEN_RESOLVE_DEPTH_LIMIT {
        let k = ks[i];
        let s = placeholder(k);
        let next = (i + 1) % (ks.len() as int);
        assert(backslash_run(0) + s =~= s);
        lemma_single_token(0, k);
        let np = child_key_path(path, k);
        assert(np.len() > path.len());
        lemma_cycle_fails(root, ks, next, depth + 1, np);
        assert(expand_token_text(root, k, np, depth) is Err);
        let rest = scan(root, s, depth, path, s.len() as int);
        assert(rest.text =~= Seq::<char>::empty());
        assert(backslash_run(0) + s + rest.text =~= s);
    }
}

/// Members of an object that refer to each other in a ring, `ks[0]` holding
/// the string `${ks[1]}`, `ks[1]` holding `${ks[2]}`, and the last holding
/// `${ks[0]}`, make the expansion of the whole tree fail, however long the
/// ring (`idxs` gives where each member stands).
pub proof fn law_reference_cycle_fails(entries: Seq<(Seq<char>, Tree)>, ks: Seq<Seq<char>>, idxs: Seq<int>)
    requires
        Tree::Object(entries).keys_unique(),
        ks.len() > 0,
        idxs.len() == ks.len(),
        forall|j: int|
            0 <= j < ks.len() ==> 0 <= #[trigger] idxs[j] < entries.len() && entries[idxs[j]] == (
                ks[j],
                Tree::String(placeholder(ks[(j + 1) % (ks.len() as int)])),
            ),
        forall|j: int| 0 <= j < ks.len() ==> member_key(#[trigger] ks[j]),
    ensures
        expand(Tree::Object(entries)) is Err,
{
    let root = Tree::Object(entries);
    let m = ks.len() as int;
    assert forall|j: int| 0 <= j < m implies resolve(root, #[trigger] ks[j]) == Some(
        Tree::String(placeholder(ks[(j + 1) % m])),
    ) by {
        lemma_resolve_member(entries, idxs[j]);
    }
    assert forall|j: int| 0 <= j < m implies plain_key(#[trigger] ks[j]) by {
        assert(member_key(ks[j]));
    }
    let idx = idxs[0];
    let k = ks[0];
    let path = child_key_path(Seq::empty(), k);
    assert(path == k);
    assert(entries[idx].1 == Tree::String(placeholder(ks[1int % m])));
    lemma_cycle_fails(root, ks, 1int % m, 1, path);
    assert(expand_entries(root, entries, 0, Seq::empty(), (idx + 1) as nat) is Err);
    lemma_entries_err(root, entries, 0, Seq::empty(), (idx + 1) as nat, entries.len());
}

/// An object member `k` whose value is the string `${k}` refers to itself:
/// expanding the tree fails, and when it is the only member the error names
/// depth 1, the path `k` and the string `${k}`.
pub proof fn law_direct_self_reference_fails(entries: Seq<(Seq<char>, Tree)>, idx: int)
    requires
        Tree::Object(entries).keys_unique(),
        0 <= idx < entries.len(),
        member_key(entries[idx].0),
        entries[idx].1 == Tree::String(placeholder(entries[idx].0)),
    ensures
        expand(Tree::Object(entries)) is Err,
        entries.len() == 1 ==> expand(Tree::Object(entries)) == Err::<Tree, Fault>(
            Fault::RecursionLimit {
                depth: 1,
                path: entries[idx].0,
                value: Tree::String(placeholder(entries[idx].0)),
            },
        ),
{
    let root = Tree::Object(entries);
    let k = entries[idx].0;
    let ks = seq![k];
    lemma_resolve_member(entries, idx);
    assert forall|j: int| 0 <= j < 1 implies resolve(root, #[trigger] ks[j]) == Some(
        Tree::String(placeholder(ks[(j + 1) % 1])),
    ) by {}
    let path = child_key_path(Seq::empty(), k);
    assert(path == k);
    lemma_cycle_fails(root, ks, 0, 1, path);
    assert(expand_entries(root, entries, 0, Seq::empty(), (idx + 1) as nat) is Err);
    lemma_entries_err(root, entries, 0, Seq::empty(), (idx + 1) as nat, entries.len());
    if entries.len() == 1 {
        assert(expand_entries(root, entries, 0, Seq::empty(), 0) == Ok::<Seq<(Seq<char>, Tree)>, Fault>(
            Seq::empty(),
        ));
    }
}

/// `b` has the shape of `a`: the same kind of node at every place, the same
/// keys in the same order, the same array lengths and the same scalars; only
/// the contents of strings may differ.
pub open spec fn same_shape(a: Tree, b: Tree) -> bool
    decreases a,
{
    match a {
        Tree::String(_) => b is String,
        Tree::Array(xs) => b matches Tree::Array(ys) && ys.len() == xs.len() && forall|i: int|
            0 <= i < xs.len() ==> same_shape(#[trigger] xs[i], ys[i]),
        Tree::Object(xs) => b matches Tree::Object(ys) && ys.len() == xs.len() && forall|i: int|
            0 <= i < xs.len() ==> ys[i].0 == (#[trigger] xs[i]).0 && same_shape(xs[i].1, ys[i].1),
        _ => b == a,
    }
}

/// A successful expansion keeps the shape of the tree: every object keeps its
/// keys, every array its length, every scalar its value; only strings are
/// rewritten.
pub proof fn law_expansion_keeps_shape(root: Tree, node: Tree, depth: nat, path: Seq<char>)
    ensures
        expand_value(root, node, depth, path) matches Ok(t) ==> same_shape(node, t),
    decreases node, 0nat,
{
    if depth <= TOKEN_RESOLVE_DEPTH_LIMIT {
        match node {
            Tree::Array(items) => {
                lemma_items_keep_shape(root, items, depth, path, items.len());
            },
            Tree::Object(entries) => {
                lemma_entries_keep_shape(root, entries, depth, path, entries.len());
            },
            _ => {},
        }
    }
}

proof fn lemma_items_keep_shape(root: Tree, items: Seq<Tree>, depth: nat, path: Seq<char>, n: nat)
    requires
        depth <= TOKEN_RESOLVE_DEPTH_LIMIT,
        n <= items.len(),
    ensures
        expand_items(root, items, depth, path, n) matches Ok(out) ==> out.len() == n && forall|i: int|
            0 <= i < n ==> same_shape(#[trigger] items[i], out[i]),
    decreases items, n,
{
    if n > 0 {
        let k = (n - 1) as nat;
        lemma_items_keep_shape(root, items, depth, path, k);
        law_expansion_keeps_shape(root, items[k as int], depth + 1, child_index_path(path, k));
    }
}

proof fn lemma_entries_keep_shape(
    root: Tree,
    entries: Seq<(Seq<char>, Tree)>,
    depth: nat,
    path: Seq<char>,
    n: nat,
)
    requires
        depth <= TOKEN_RESOLVE_DEPTH_LIMIT,
        n <= entries.len(),
    ensures
        expand_entries(root, entries, depth, path, n) matches Ok(out) ==> out.len() == n && forall|i: int|
            0 <= i < n ==> out[i].0 == (#[trigger] entries[i]).0 && same_shape(entries[i].1, out[i].1),
    decreases entries, n,
{
    if n > 0 {
        let k = (n - 1) as nat;
        let key = entries[k as int].0;
        lemma_entries_keep_shape(root, entries, depth, path, k);
        law_expansion_keeps_shape(root, entries[k as int].1, depth + 1, child_key_path(path, key));
    }
}

/// A chain of placeholders, `${ks[j]}` naming the string `${ks[j + 1]}` and
/// the last naming the placeholder-free string `v`, expands to `v` when the
/// rest of the chain fits under the ceiling.
proof fn lemma_chain_resolves(root: Tree, ks: Seq<Seq<char>>, v: Seq<char>, j: int, depth: nat, path: Seq<char>)
    requires
        0 <= j < ks.len(),
        path.len() > 0,
        depth + (ks.len() - j) <= TOKEN_RESOLVE_DEPTH_LIMIT,
        forall|i: int| 0 <= i < ks.len() ==> plain_key(#[trigger] ks[i]),
        forall|i: int|
            0 <= i < ks.len() - 1 ==> resolve(root, #[trigger] ks[i]) == Some(
                Tree::String(placeholder(ks[i + 1])),
            ),
        resolve(root, ks[ks.len() - 1]) == Some(Tree::String(v)),
        placeholder_free(Tree::String(v)),
    ensures
        expand_value(root, Tree::String(placeholder(ks[j])), depth, path) == Ok::<Tree, Fault>(
            Tree::String(v),
        ),
    decreases ks.len() - j,
{
    let k = ks[j];
    let s = placeholder(k);
    assert(backslash_run(0) + s =~= s);
    lemma_single_token(0, k);
    let np = child_key_path(path, k);
    assert(np.len() > path.len());
    if j < ks.len() - 1 {
        lemma_chain_resolves(root, ks, v, j + 1, depth + 1, np);
    } else {
        lemma_value_unchanged(root, Tree::String(v), depth + 1, np);
    }
    assert(expand_token_text(root, k, np, depth) == Ok::<Seq<char>, Fault>(v));
    let rest = scan(root, s, depth, path, s.len() as int);
    assert(rest.text =~= Seq::<char>::empty());
    assert(backslash_run(0) + v + rest.text =~= v);
}

proof fn lemma_entries_ok(root: Tree, entries: Seq<(Seq<char>, Tree)>, depth: nat, path: Seq<char>, n: nat)
    requires
        depth <= TOKEN_RESOLVE_DEPTH_LIMIT,
        n <= entries.len(),
    ensures
        expand_entries(root, entries, depth, path, n) matches Ok(out) ==> out.len() == n && forall|i: int|
            0 <= i < n ==> #[trigger] out[i] == (
                entries[i].0,
                expand_value(root, entries[i].1, depth + 1, child_key_path(path, entries[i].0))->Ok_0,
            ),
    decreases n,
{
    if n > 0 {
        lemma_entries_ok(root, entries, depth, path, (n - 1) as nat);
    }
}

/// Members of an object that pass a value along a chain, `ks[0]` holding the
/// string `${ks[1]}`, `ks[1]` holding `${ks[2]}`, and the last holding a
/// placeholder-free string `v`, all expand to `v` where they stand, as long
/// as the chain is no longer than the depth ceiling; so a successful
/// expansion of the tree puts `v` at every link.
pub proof fn law_reference_chain_resolves(
    entries: Seq<(Seq<char>, Tree)>,
    ks: Seq<Seq<char>>,
    idxs: Seq<int>,
    v: Seq<char>,
)
    requires
        Tree::Object(entries).keys_unique(),
        0 < ks.len() <= TOKEN_RESOLVE_DEPTH_LIMIT,
        idxs.len() == ks.len(),
        forall|j: int| 0 <= j < ks.len() ==> 0 <= #[trigger] idxs[j] < entries.len() && entries[idxs[j]].0 == ks[j],
        forall|j: int|
            0 <= j < ks.len() - 1 ==> entries[#[trigger] idxs[j]].1 == Tree::String(placeholder(ks[j + 1])),
        entries[idxs[ks.len() - 1]].1 == Tree::String(v),
        forall|j: int| 0 <= j < ks.len() ==> member_key(#[trigger] ks[j]),
        placeholder_free(Tree::String(v)),
    ensures
        forall|j: int|
            0 <= j < ks.len() ==> expand_value(
                Tree::Object(entries),
                entries[#[trigger] idxs[j]].1,
                1,
                ks[j],
            ) == Ok::<Tree, Fault>(Tree::String(v)),
        expand(Tree::Object(entries)) matches Ok(Tree::Object(out)) ==> forall|j: int|
            0 <= j < ks.len() ==> out[#[trigger] idxs[j]] == (ks[j], Tree::String(v)),
{
    let root = Tree::Object(entries);
    let m = ks.len() as int;
    assert forall|j: int| 0 <= j < m - 1 implies resolve(root, #[trigger] ks[j]) == Some(
        Tree::String(placeholder(ks[j + 1])),
    ) by {
        lemma_resolve_member(entries, idxs[j]);
    }
    lemma_resolve_member(entries, idxs[m - 1]);
    assert forall|j: int| 0 <= j < m implies plain_key(#[trigger] ks[j]) by {
        assert(member_key(ks[j]));
    }
    assert forall|j: int| 0 <= j < m implies expand_value(root, entries[#[trigger] idxs[j]].1, 1, ks[j])
        == Ok::<Tree, Fault>(Tree::String(v)) by {
        if j < m - 1 {
            assert(member_key(ks[j]));
            lemma_chain_resolves(root, ks, v, j + 1, 1, ks[j]);
        } else {
            lemma_value_unchanged(root, Tree::String(v), 1, ks[j]);
        }
    }
    lemma_entries_ok(root, entries, 0, Seq::empty(), entries.len());
    assert forall|j: int| 0 <= j < m implies child_key_path(Seq::empty(), #[trigger] ks[j]) == ks[j] by {}
}

proof fn lemma_same_shape_keeps_unique_keys(a: Tree, b: Tree)
    requires
        same_shape(a, b),
        a.keys_unique(),
    ensures
        b.keys_unique(),
    decreases a,
{
    match a {
        Tree::Array(xs) => {
            let ys = b->Array_0;
            assert forall|i: int| 0 <= i < ys.len() implies (#[trigger] ys[i]).keys_unique() by {
                lemma_same_shape_keeps_unique_keys(xs[i], ys[i]);
            }
        },
        Tree::Object(xs) => {
            let ys = b->Object_0;
            assert forall|i: int, j: int| 0 <= i < j < ys.len() implies (#[trigger] ys[i]).0 != (
            #[trigger] ys[j]).0 by {
                assert(ys[i].0 == xs[i].0 && ys[j].0 == xs[j].0);
            }
            assert forall|i: int| 0 <= i < ys.len() implies (#[trigger] ys[i]).1.keys_unique() by {
                assert(same_shape(xs[i].1, ys[i].1));
                lemma_same_shape_keeps_unique_keys(xs[i].1, ys[i].1);
            }
        },
        _ => {},
    }
}

/// Expansion preserves the well-formedness of a tree: when no object of the
/// input repeats a key, none of the output does.
pub proof fn law_expansion_keeps_unique_keys(root: Tree)
    requires
        root.keys_unique(),
    ensures
        expand(root) matches Ok(t) ==> t.keys_unique(),
{
    law_expansion_keeps_shape(root, root, 0, Seq::empty());
    if let Ok(t) = expand(root) {
        lemma_same_shape_keeps_unique_keys(root, t);
    }
}

} // verus!
