//! Application state: the list of candidates and the view of it (sort,
//! filter, cursor, selection).

use vstd::prelude::*;

use crate::order::{
    entry_lt, keys_view, lemma_lex_asymmetric, lemma_lex_total, lemma_lex_transitive, lex_lt,
    sort_positions, sorted_positions,
};
use crate::text::{chars_of, contains_chars, has_substring, lowercase, to_lowercase};

verus! {

/// A reclaimable directory discovered by the scanner.
pub struct Candidate {
    pub id: usize,
    /// The directory's path, as text.
    pub path: String,
    pub ecosystem: String,
    /// `None` until the sizer reports a value.
    pub size: Option<u64>,
    /// Last modification, in nanoseconds since the Unix epoch (negative
    /// before it); `None` when unknown.
    pub mtime: Option<i128>,
    pub selected: bool,
    /// Set once the directory has been removed (kept in the list, struck out).
    pub deleted: bool,
}

impl Candidate {
    /// A freshly found directory: not sized, not selected, not deleted.
    pub fn new(id: usize, path: String, ecosystem: String) -> (c: Self)
        ensures
            c.id == id,
            c.path == path,
            c.ecosystem == ecosystem,
            c.size is None,
            c.mtime is None,
            !c.selected,
            !c.deleted,
    {
        Candidate { id, path, ecosystem, size: None, mtime: None, selected: false, deleted: false }
    }
}

/// The order in which the list is shown.
#[derive(Clone, Copy, Debug, PartialEq, Eq, Structural)]
pub enum SortMode {
    /// Largest first.
    Size,
    /// Oldest first; directories of unknown age last.
    Age,
    /// By path, component by component.
    Path,
}

impl SortMode {
    /// The mode that the sort key cycles to: size, then age, then path.
    pub fn next(self) -> (r: Self)
        ensures
            r == (match self {
                SortMode::Size => SortMode::Age,
                SortMode::Age => SortMode::Path,
                SortMode::Path => SortMode::Size,
            }),
    {
        match self {
            SortMode::Size => SortMode::Age,
            SortMode::Age => SortMode::Path,
            SortMode::Path => SortMode::Size,
        }
    }

    /// The name shown for the mode.
    pub fn label(self) -> (r: &'static str)
        ensures
            r@ == (match self {
                SortMode::Size => "size"@,
                SortMode::Age => "age"@,
                SortMode::Path => "path"@,
            }),
    {
        match self {
            SortMode::Size => "size",
            SortMode::Age => "age",
            SortMode::Path => "path",
        }
    }
}

/// Cycling the sort mode three times comes back to where it started.
pub proof fn lemma_sort_cycle(m: SortMode)
    ensures
        next_mode(next_mode(next_mode(m))) == m,
        next_mode(m) != m,
{
}

/// The mode after `m` in the cycle.
pub open spec fn next_mode(m: SortMode) -> SortMode {
    match m {
        SortMode::Size => SortMode::Age,
        SortMode::Age => SortMode::Path,
        SortMode::Path => SortMode::Size,
    }
}

// ---------------------------------------------------------------------------
// Paths as sequences of components
// ---------------------------------------------------------------------------

/// The maximal runs of characters other than `/` in `s`, continuing a run
/// that has reached `cur` so far.
pub open spec fn runs_from(s: Seq<char>, cur: Seq<char>) -> Seq<Seq<char>>
    decreases s.len(),
{
    if s.len() == 0 {
        if cur.len() > 0 {
            seq![cur]
        } else {
            Seq::empty()
        }
    } else if s[0] == '/' {
        (if cur.len() > 0 {
            seq![cur]
        } else {
            Seq::empty()
        }) + runs_from(s.drop_first(), Seq::empty())
    } else {
        runs_from(s.drop_first(), cur.push(s[0]))
    }
}

/// The names kept from the runs `rs` of a path: a `.` is dropped, except as
/// the first run of a relative path (`lead`).
pub open spec fn keep_parts(rs: Seq<Seq<char>>, lead: bool) -> Seq<Seq<char>>
    decreases rs.len(),
{
    if rs.len() == 0 {
        Seq::empty()
    } else if rs[0] == seq!['.'] && !lead {
        keep_parts(rs.drop_first(), false)
    } else {
        seq![rs[0]] + keep_parts(rs.drop_first(), false)
    }
}

/// The components of a path, in order, as `Path::components` gives them:
/// the root (written as the empty sequence) when the path starts with `/`,
/// then each name between separators. Repeated separators yield no empty
/// names, and `.` is dropped except at the start of a relative path.
pub open spec fn path_components(s: Seq<char>) -> Seq<Seq<char>> {
    let rooted = s.len() > 0 && s[0] == '/';
    (if rooted {
        seq![Seq::<char>::empty()]
    } else {
        Seq::empty()
    }) + keep_parts(runs_from(s, Seq::empty()), !rooted)
}

/// A name as numbers: each character one above its code point, closed by a
/// 0 that sorts below every character.
pub open spec fn encode_name(c: Seq<char>) -> Seq<i128> {
    Seq::new(c.len(), |j: int| (c[j] as u32 as i128 + 1) as i128).push(0)
}

/// One component as numbers: the root, `.` and `..` as single numbers below
/// every name, in that order; any other name by [`encode_name`].
pub open spec fn encode_component(c: Seq<char>) -> Seq<i128> {
    if c.len() == 0 {
        seq![-3i128]
    } else if c == seq!['.'] {
        seq![-2i128]
    } else if c == seq!['.', '.'] {
        seq![-1i128]
    } else {
        encode_name(c)
    }
}

/// All components, encoded one after the other.
pub open spec fn encode_components(cs: Seq<Seq<char>>) -> Seq<i128>
    decreases cs.len(),
{
    if cs.len() == 0 {
        Seq::empty()
    } else {
        encode_components(cs.drop_last()) + encode_component(cs.last())
    }
}

/// The key by which paths are sorted.
pub open spec fn path_key(s: Seq<char>) -> Seq<i128> {
    encode_components(path_components(s))
}

/// Lexicographic order on names, character by character (by code point); a
/// proper prefix comes first.
pub open spec fn chars_lt(a: Seq<char>, b: Seq<char>) -> bool
    decreases a.len(),
{
    if a.len() == 0 {
        b.len() > 0
    } else if b.len() == 0 {
        false
    } else if (a[0] as u32) < (b[0] as u32) {
        true
    } else if a[0] == b[0] {
        chars_lt(a.drop_first(), b.drop_first())
    } else {
        false
    }
}

/// The kind of a component, in the order `Path` ranks kinds: the root, `.`,
/// `..`, then names.
pub open spec fn part_rank(c: Seq<char>) -> int {
    if c.len() == 0 {
        0
    } else if c == seq!['.'] {
        1
    } else if c == seq!['.', '.'] {
        2
    } else {
        3
    }
}

/// Order on components: by kind, and names among themselves by
/// [`chars_lt`].
pub open spec fn part_lt(a: Seq<char>, b: Seq<char>) -> bool {
    part_rank(a) < part_rank(b) || (part_rank(a) == 3 && part_rank(b) == 3 && chars_lt(a, b))
}

/// Lexicographic order on paths, component by component, as `Path` orders
/// them: a proper prefix comes first.
pub open spec fn components_lt(a: Seq<Seq<char>>, b: Seq<Seq<char>>) -> bool
    decreases a.len(),
{
    if a.len() == 0 {
        b.len() > 0
    } else if b.len() == 0 {
        false
    } else if part_lt(a[0], b[0]) {
        true
    } else if a[0] == b[0] {
        components_lt(a.drop_first(), b.drop_first())
    } else {
        false
    }
}

proof fn lemma_chars_total(a: Seq<char>, b: Seq<char>)
    ensures
        a != b ==> chars_lt(a, b) || chars_lt(b, a),
    decreases a.len(),
{
    if a.len() > 0 && b.len() > 0 {
        if a[0] == b[0] {
            lemma_chars_total(a.drop_first(), b.drop_first());
            if a.drop_first() == b.drop_first() {
                assert(a =~= seq![a[0]] + a.drop_first());
                assert(b =~= seq![b[0]] + b.drop_first());
            }
        } else {
            vstd::utf8::char_u32_cast(a[0], a[0] as u32);
            vstd::utf8::char_u32_cast(b[0], b[0] as u32);
            assert((a[0] as u32) != (b[0] as u32));
        }
    } else if a.len() == 0 && b.len() == 0 {
        assert(a =~= b);
    }
}

proof fn lemma_part_total(a: Seq<char>, b: Seq<char>)
    ensures
        a != b ==> part_lt(a, b) || part_lt(b, a),
{
    lemma_chars_total(a, b);
    if part_rank(a) == part_rank(b) && part_rank(a) == 0 {
        assert(a =~= b);
    }
}

proof fn lemma_components_total(a: Seq<Seq<char>>, b: Seq<Seq<char>>)
    ensures
        a != b ==> components_lt(a, b) || components_lt(b, a),
    decreases a.len(),
{
    if a.len() > 0 && b.len() > 0 {
        lemma_part_total(a[0], b[0]);
        if a[0] == b[0] {
            lemma_components_total(a.drop_first(), b.drop_first());
            if a.drop_first() == b.drop_first() {
                assert(a =~= seq![a[0]] + a.drop_first());
                assert(b =~= seq![b[0]] + b.drop_first());
            }
        }
    } else if a.len() == 0 && b.len() == 0 {
        assert(a =~= b);
    }
}

proof fn lemma_encode_prepend(c: Seq<char>, rest: Seq<Seq<char>>)
    ensures
        encode_components(seq![c] + rest) == encode_component(c) + encode_components(rest),
    decreases rest.len(),
{
    if rest.len() == 0 {
        assert(seq![c] + rest =~= seq![c]);
        assert(seq![c].drop_last() =~= Seq::<Seq<char>>::empty());
        assert(encode_component(c) + Seq::<i128>::empty() =~= encode_component(c));
        assert(Seq::<i128>::empty() + encode_component(c) =~= encode_component(c));
        assert(encode_components(seq![c]) == encode_components(Seq::<Seq<char>>::empty()) + encode_component(c));
    } else {
        lemma_encode_prepend(c, rest.drop_last());
        assert((seq![c] + rest).drop_last() =~= seq![c] + rest.drop_last());
        assert((seq![c] + rest).last() == rest.last());
        assert(encode_component(c) + encode_components(rest.drop_last()) + encode_component(rest.last())
            =~= encode_component(c) + (encode_components(rest.drop_last()) + encode_component(rest.last())));
    }
}

proof fn lemma_encode_nonempty(cs: Seq<Seq<char>>)
    ensures
        (encode_components(cs).len() == 0) == (cs.len() == 0),
    decreases cs.len(),
{
    if cs.len() > 0 {
        lemma_encode_nonempty(cs.drop_last());
    }
}

/// Comparing one encoded name followed by anything: the names decide, and
/// equal names defer to what follows.
proof fn lemma_encode_name_order(c: Seq<char>, d: Seq<char>, x: Seq<i128>, y: Seq<i128>)
    ensures
        lex_lt(encode_name(c) + x, encode_name(d) + y) == (chars_lt(c, d) || (c == d && lex_lt(x, y))),
    decreases c.len(),
{
    let ec = encode_name(c) + x;
    let ed = encode_name(d) + y;
    if c.len() == 0 {
        assert(ec[0] == 0);
        assert(ec.drop_first() =~= x);
        if d.len() == 0 {
            assert(ed[0] == 0);
            assert(ed.drop_first() =~= y);
            assert(c =~= d);
        } else {
            assert(ed[0] == d[0] as u32 as i128 + 1);
        }
    } else if d.len() == 0 {
        assert(ed[0] == 0);
        assert(ec[0] == c[0] as u32 as i128 + 1);
    } else {
        assert(ec[0] == c[0] as u32 as i128 + 1);
        assert(ed[0] == d[0] as u32 as i128 + 1);
        assert(ec.drop_first() =~= encode_name(c.drop_first()) + x);
        assert(ed.drop_first() =~= encode_name(d.drop_first()) + y);
        lemma_encode_name_order(c.drop_first(), d.drop_first(), x, y);
        vstd::utf8::char_u32_cast(c[0], c[0] as u32);
        vstd::utf8::char_u32_cast(d[0], d[0] as u32);
        if c[0] == d[0] {
            if c.drop_first() == d.drop_first() {
                assert(c =~= seq![c[0]] + c.drop_first());
                assert(d =~= seq![d[0]] + d.drop_first());
            }
        } else {
            assert(c != d);
        }
    }
}

/// Comparing one encoded component followed by anything: the components
/// decide, and equal components defer to what follows.
proof fn lemma_encode_component_order(c: Seq<char>, d: Seq<char>, x: Seq<i128>, y: Seq<i128>)
    ensures
        lex_lt(encode_component(c) + x, encode_component(d) + y) == (part_lt(c, d) || (c == d && lex_lt(x, y))),
{
    let ec = encode_component(c) + x;
    let ed = encode_component(d) + y;
    if part_rank(c) == 3 && part_rank(d) == 3 {
        lemma_encode_name_order(c, d, x, y);
    } else {
        if part_rank(c) == 3 {
            assert(c.len() > 0);
            assert(ec[0] == c[0] as u32 as i128 + 1);
        }
        if part_rank(d) == 3 {
            assert(d.len() > 0);
            assert(ed[0] == d[0] as u32 as i128 + 1);
        }
        if part_rank(c) < 3 {
            assert(ec.drop_first() =~= x);
        }
        if part_rank(d) < 3 {
            assert(ed.drop_first() =~= y);
        }
        if part_rank(c) == part_rank(d) {
            if part_rank(c) == 0 {
                assert(c =~= d);
            }
        }
    }
}

/// The encoding of components orders them as [`components_lt`] does, and
/// tells different component sequences apart.
pub proof fn lemma_encoding_order(a: Seq<Seq<char>>, b: Seq<Seq<char>>)
    ensures
        lex_lt(encode_components(a), encode_components(b)) == components_lt(a, b),
        (encode_components(a) == encode_components(b)) == (a == b),
    decreases a.len() + b.len(),
{
    lemma_encode_nonempty(a);
    lemma_encode_nonempty(b);
    if a.len() > 0 && b.len() > 0 {
        assert(a =~= seq![a[0]] + a.drop_first());
        assert(b =~= seq![b[0]] + b.drop_first());
        lemma_encode_prepend(a[0], a.drop_first());
        lemma_encode_prepend(b[0], b.drop_first());
        lemma_encoding_order(a.drop_first(), b.drop_first());
        lemma_encoding_order(b.drop_first(), a.drop_first());
        let xa = encode_components(a.drop_first());
        let xb = encode_components(b.drop_first());
        lemma_encode_component_order(a[0], b[0], xa, xb);
        lemma_encode_component_order(b[0], a[0], xb, xa);
        lemma_lex_asymmetric(encode_components(a), encode_components(b));
        lemma_lex_total(encode_components(a), encode_components(b));
        lemma_components_total(a, b);
        if a != b {
            assert(components_lt(a, b) || components_lt(b, a));
        }
    } else if a.len() == 0 && b.len() == 0 {
        assert(a =~= b);
    } else if a.len() == 0 {
        assert(encode_components(a) =~= Seq::<i128>::empty());
    } else {
        assert(encode_components(b) =~= Seq::<i128>::empty());
    }
}

// ---------------------------------------------------------------------------
// Candidates in the view
// ---------------------------------------------------------------------------

/// Sized candidates show when at least the minimum size; unsized ones only
/// while no minimum is set.
pub open spec fn passes_size(c: Candidate, min_size: u64) -> bool {
    match c.size {
        Some(s) => s >= min_size,
        None => min_size == 0,
    }
}

/// With the lowercased texts `path` and `eco` and a lowercased filter `f`:
/// an empty filter lets everything through, otherwise the path or the
/// ecosystem must contain it.
pub open spec fn filter_accepts(path: Seq<char>, eco: Seq<char>, f: Seq<char>) -> bool {
    f.len() == 0 || has_substring(path, f) || has_substring(eco, f)
}

/// The filter `f` occurs in `t` at position `i`, character by character.
pub open spec fn occurs_at(t: Seq<char>, f: Seq<char>, i: int) -> bool {
    0 <= i && i + f.len() <= t.len() && forall|j: int| 0 <= j < f.len() ==> #[trigger] t[i + j] == f[j]
}

/// The filter accepts a row exactly when the filter is empty or occurs
/// somewhere inside the path or somewhere inside the ecosystem, not only
/// when it equals either of them.
pub proof fn lemma_filter_is_substring_search(path: Seq<char>, eco: Seq<char>, f: Seq<char>)
    ensures
        filter_accepts(path, eco, f) <==> (f.len() == 0 || (exists|i: int| occurs_at(path, f, i)) || (exists|
            i: int,
        | occurs_at(eco, f, i))),
{
    lemma_has_substring_occurs(path, f);
    lemma_has_substring_occurs(eco, f);
}

proof fn lemma_has_substring_occurs(t: Seq<char>, f: Seq<char>)
    ensures
        has_substring(t, f) <==> exists|i: int| occurs_at(t, f, i),
{
    if has_substring(t, f) {
        let i = choose|i: int| 0 <= i && i + f.len() <= t.len() && #[trigger] t.subrange(i, i + f.len()) == f;
        assert forall|j: int| 0 <= j < f.len() implies #[trigger] t[i + j] == f[j] by {
            assert(t.subrange(i, i + f.len())[j] == t[i + j]);
        }
        assert(occurs_at(t, f, i));
    }
    if exists|i: int| occurs_at(t, f, i) {
        let i = choose|i: int| occurs_at(t, f, i);
        assert forall|j: int| 0 <= j < f.len() implies #[trigger] t.subrange(i, i + f.len())[j] == f[j] by {
            assert(t[i + j] == f[j]);
        }
        assert(t.subrange(i, i + f.len()) =~= f);
    }
}

/// Candidate `c` passes the lowercased filter `f`: its lowercased path or
/// ecosystem contains it, or `f` is empty.
pub open spec fn passes_filter(c: Candidate, f: Seq<char>) -> bool {
    filter_accepts(lowercase(c.path@), lowercase(c.ecosystem@), f)
}

/// Whether the filter `f` accepts a row whose lowercased path is `path` and
/// lowercased ecosystem is `eco`.
pub fn filter_matches(path: &str, eco: &str, f: &[char]) -> (r: bool)
    ensures
        r == filter_accepts(path@, eco@, f@),
{
    if f.len() == 0 {
        return true;
    }
    let p = chars_of(path);
    if contains_chars(p.as_slice(), f) {
        return true;
    }
    let e = chars_of(eco);
    contains_chars(e.as_slice(), f)
}

/// The key by which a candidate is sorted in mode `mode`.
pub open spec fn sort_key(c: Candidate, mode: SortMode) -> Seq<i128> {
    match mode {
        SortMode::Size => seq![(0 - (match c.size {
            Some(s) => s as int,
            None => 0,
        })) as i128],
        SortMode::Age => match c.mtime {
            Some(t) => seq![0i128, t],
            None => seq![1i128],
        },
        SortMode::Path => path_key(c.path@),
    }
}

/// Candidate `i` is shown before candidate `j` in `mode`: its key comes
/// first, or the keys are equal and `i` was found first.
pub open spec fn precedes(cands: Seq<Candidate>, mode: SortMode, i: int, j: int) -> bool {
    lex_lt(sort_key(cands[i], mode), sort_key(cands[j], mode)) || (sort_key(cands[i], mode)
        == sort_key(cands[j], mode) && i < j)
}

/// `s` lists exactly the shown candidates, each once, in display order.
pub open spec fn is_view(cands: Seq<Candidate>, min_size: u64, f: Seq<char>, mode: SortMode, s: Seq<usize>) -> bool {
    &&& s.no_duplicates()
    &&& forall|k: int| 0 <= k < s.len() ==> #[trigger] s[k] < cands.len()
    &&& forall|k: int| 0 <= k < s.len() ==> passes_size(cands[#[trigger] s[k] as int], min_size)
    &&& forall|k: int| 0 <= k < s.len() ==> passes_filter(cands[#[trigger] s[k] as int], f)
    &&& forall|i: usize|
        i < cands.len() && passes_size(cands[i as int], min_size) && passes_filter(
            cands[i as int],
            f,
        ) ==> #[trigger] s.contains(i)
    &&& forall|k: int, l: int|
        0 <= k < l < s.len() ==> precedes(cands, mode, #[trigger] s[k] as int, #[trigger] s[l] as int)
}

/// The display order: the unique sequence satisfying [`is_view`].
pub open spec fn view_of(cands: Seq<Candidate>, min_size: u64, f: Seq<char>, mode: SortMode) -> Seq<usize> {
    choose|s: Seq<usize>| is_view(cands, min_size, f, mode, s)
}

proof fn lemma_precedes_asymmetric(cands: Seq<Candidate>, mode: SortMode, i: int, j: int)
    ensures
        !(precedes(cands, mode, i, j) && precedes(cands, mode, j, i)),
{
    lemma_lex_asymmetric(sort_key(cands[i], mode), sort_key(cands[j], mode));
    lemma_lex_asymmetric(sort_key(cands[j], mode), sort_key(cands[j], mode));
}

/// Two sequences that both satisfy [`is_view`] are equal.
pub proof fn lemma_view_unique(
    cands: Seq<Candidate>,
    min_size: u64,
    f: Seq<char>,
    mode: SortMode,
    s: Seq<usize>,
    t: Seq<usize>,
)
    requires
        is_view(cands, min_size, f, mode, s),
        is_view(cands, min_size, f, mode, t),
    ensures
        s == t,
{
    lemma_sorted_unique(cands, mode, s, t);
}

proof fn lemma_sorted_unique(cands: Seq<Candidate>, mode: SortMode, s: Seq<usize>, t: Seq<usize>)
    requires
        s.no_duplicates(),
        t.no_duplicates(),
        forall|x: usize| s.contains(x) <==> t.contains(x),
        forall|k: int, l: int|
            0 <= k < l < s.len() ==> precedes(cands, mode, #[trigger] s[k] as int, #[trigger] s[l] as int),
        forall|k: int, l: int|
            0 <= k < l < t.len() ==> precedes(cands, mode, #[trigger] t[k] as int, #[trigger] t[l] as int),
    ensures
        s == t,
    decreases s.len(),
{
    if s.len() == 0 {
        if t.len() > 0 {
            assert(t.contains(t[0]));
        }
        assert(s =~= t);
    } else if t.len() == 0 {
        assert(s.contains(s[0]));
    } else {
        let a = s[0];
        let b = t[0];
        assert(s.contains(a));
        assert(t.contains(b));
        if a != b {
            let k = choose|k: int| 0 <= k < s.len() && s[k] == b;
            let l = choose|l: int| 0 <= l < t.len() && t[l] == a;
            assert(precedes(cands, mode, s[0] as int, s[k] as int));
            assert(precedes(cands, mode, t[0] as int, t[l] as int));
            lemma_precedes_asymmetric(cands, mode, a as int, b as int);
        }
        let s1 = s.drop_first();
        let t1 = t.drop_first();
        assert forall|x: usize| s1.contains(x) <==> t1.contains(x) by {
            if s1.contains(x) {
                let k = choose|k: int| 0 <= k < s1.len() && s1[k] == x;
                assert(s[k + 1] == x);
                assert(x != a);
                assert(t.contains(x));
                let l = choose|l: int| 0 <= l < t.len() && t[l] == x;
                assert(l != 0);
                assert(t1[l - 1] == x);
            }
            if t1.contains(x) {
                let l = choose|l: int| 0 <= l < t1.len() && t1[l] == x;
                assert(t[l + 1] == x);
                assert(x != b);
                assert(s.contains(x));
                let k = choose|k: int| 0 <= k < s.len() && s[k] == x;
                assert(k != 0);
                assert(s1[k - 1] == x);
            }
        }
        assert forall|k: int, l: int| 0 <= k < l < s1.len() implies precedes(cands, mode, #[trigger] s1[k] as int, #[trigger] s1[l] as int) by {
            assert(s1[k] == s[k + 1] && s1[l] == s[l + 1]);
        }
        assert forall|k: int, l: int| 0 <= k < l < t1.len() implies precedes(cands, mode, #[trigger] t1[k] as int, #[trigger] t1[l] as int) by {
            assert(t1[k] == t[k + 1] && t1[l] == t[l + 1]);
        }
        assert(s1.no_duplicates()) by {
            assert forall|k: int, l: int| 0 <= k < s1.len() && 0 <= l < s1.len() && k != l implies s1[k] != s1[l] by {
                assert(s1[k] == s[k + 1] && s1[l] == s[l + 1]);
            }
        }
        assert(t1.no_duplicates()) by {
            assert forall|k: int, l: int| 0 <= k < t1.len() && 0 <= l < t1.len() && k != l implies t1[k] != t1[l] by {
                assert(t1[k] == t[k + 1] && t1[l] == t[l + 1]);
            }
        }
        lemma_sorted_unique(cands, mode, s1, t1);
        assert(s =~= seq![a] + s1);
        assert(t =~= seq![b] + t1);
    }
}

/// The candidates below `n` that pass both filters, in index order.
pub open spec fn shown_below(cands: Seq<Candidate>, min_size: u64, f: Seq<char>, n: nat) -> Seq<usize>
    decreases n,
{
    if n == 0 {
        Seq::empty()
    } else {
        let prev = shown_below(cands, min_size, f, (n - 1) as nat);
        let i = (n - 1) as int;
        if passes_size(cands[i], min_size) && passes_filter(cands[i], f) {
            prev.push(i as usize)
        } else {
            prev
        }
    }
}

proof fn lemma_shown_below(cands: Seq<Candidate>, min_size: u64, f: Seq<char>, n: nat)
    requires
        n <= usize::MAX,
    ensures
        ({
            let s = shown_below(cands, min_size, f, n);
            &&& forall|k: int, l: int| 0 <= k < l < s.len() ==> #[trigger] s[k] < #[trigger] s[l]
            &&& forall|k: int| 0 <= k < s.len() ==> #[trigger] s[k] < n
            &&& forall|k: int|
                0 <= k < s.len() ==> passes_size(cands[#[trigger] s[k] as int], min_size)
                    && passes_filter(cands[s[k] as int], f)
            &&& forall|i: usize|
                i < n && passes_size(cands[i as int], min_size) && passes_filter(cands[i as int], f)
                    ==> #[trigger] s.contains(i)
        }),
    decreases n,
{
    if n > 0 {
        lemma_shown_below(cands, min_size, f, (n - 1) as nat);
        let prev = shown_below(cands, min_size, f, (n - 1) as nat);
        let s = shown_below(cands, min_size, f, n);
        assert forall|i: usize|
            i < n && passes_size(cands[i as int], min_size) && passes_filter(cands[i as int], f)
            implies #[trigger] s.contains(i) by {
            if i == n - 1 {
                assert(s[s.len() - 1] == i);
            } else {
                assert(prev.contains(i));
                let k = choose|k: int| 0 <= k < prev.len() && prev[k] == i;
                assert(s[k] == i);
            }
        }
    }
}

/// Some sequence satisfies [`is_view`]: the shown candidates sorted by
/// [`precedes`].
pub proof fn lemma_view_exists(cands: Seq<Candidate>, min_size: u64, f: Seq<char>, mode: SortMode)
    requires
        cands.len() <= usize::MAX,
    ensures
        is_view(cands, min_size, f, mode, view_of(cands, min_size, f, mode)),
{
    let n = cands.len();
    let fl = shown_below(cands, min_size, f, n);
    lemma_shown_below(cands, min_size, f, n);
    let leq = |a: usize, b: usize| a == b || precedes(cands, mode, a as int, b as int);
    assert(vstd::relations::total_ordering(leq)) by {
        assert forall|x: usize, y: usize| #[trigger] leq(x, y) && #[trigger] leq(y, x) implies x == y by {
            lemma_precedes_asymmetric(cands, mode, x as int, y as int);
        }
        assert forall|x: usize, y: usize, z: usize| #[trigger] leq(x, y) && #[trigger] leq(y, z) implies leq(x, z) by {
            let kx = sort_key(cands[x as int], mode);
            let ky = sort_key(cands[y as int], mode);
            let kz = sort_key(cands[z as int], mode);
            if lex_lt(kx, ky) && lex_lt(ky, kz) {
                lemma_lex_transitive(kx, ky, kz);
            }
        }
        assert forall|x: usize, y: usize| #[trigger] leq(x, y) || #[trigger] leq(y, x) by {
            lemma_lex_total(sort_key(cands[x as int], mode), sort_key(cands[y as int], mode));
        }
    }
    fl.lemma_sort_by_ensures(leq);
    let s = fl.sort_by(leq);
    broadcast use vstd::seq_lib::group_to_multiset_ensures;
    assert(fl.no_duplicates());
    fl.lemma_multiset_has_no_duplicates();
    assert forall|x: usize| s.to_multiset().contains(x) implies s.to_multiset().count(x) == 1 by {}
    s.lemma_multiset_has_no_duplicates_conv();
    assert forall|x: usize| s.contains(x) <==> fl.contains(x) by {
        assert(s.contains(x) <==> s.to_multiset().count(x) > 0);
        assert(fl.contains(x) <==> fl.to_multiset().count(x) > 0);
    }
    assert forall|k: int| 0 <= k < s.len() implies #[trigger] s[k] < cands.len() && passes_size(cands[s[k] as int], min_size) && passes_filter(cands[s[k] as int], f) by {
        assert(s.contains(s[k]));
        let j = choose|j: int| 0 <= j < fl.len() && fl[j] == s[k];
    }
    assert forall|k: int, l: int| 0 <= k < l < s.len() implies precedes(cands, mode, #[trigger] s[k] as int, #[trigger] s[l] as int) by {
        assert(leq(s[k], s[l]));
    }
    assert(is_view(cands, min_size, f, mode, s));
}

/// The sort key of `c` in `mode`, computed.
fn sort_key_of(c: &Candidate, mode: SortMode) -> (r: Vec<i128>)
    ensures
        r@ == sort_key(*c, mode),
{
    match mode {
        SortMode::Size => {
            let s: u64 = match c.size {
                Some(s) => s,
                None => 0,
            };
            let k: i128 = 0i128 - (s as i128);
            let v = vec![k];
            assert(v@ =~= sort_key(*c, mode));
            v
        },
        SortMode::Age => {
            match c.mtime {
                Some(t) => {
                    let v = vec![0i128, t];
                    assert(v@ =~= sort_key(*c, mode));
                    v
                },
                None => {
                    let v = vec![1i128];
                    assert(v@ =~= sort_key(*c, mode));
                    v
                },
            }
        },
        SortMode::Path => path_key_of(c.path.as_str()),
    }
}

proof fn lemma_encode_push(cs: Seq<Seq<char>>, c: Seq<char>)
    ensures
        encode_components(cs.push(c)) == encode_components(cs) + encode_component(c),
{
    assert(cs.push(c).drop_last() =~= cs);
}

/// Appends the encoding of the name `cur` to `key`.
fn push_name(key: &mut Vec<i128>, cur: &Vec<char>)
    ensures
        final(key)@ == old(key)@ + encode_name(cur@),
{
    let ghost start = key@;
    let n = cur.len();
    for j in 0..n
        invariant
            n == cur@.len(),
            key@ == start + Seq::new(j as nat, |i: int| (cur@[i] as u32 as i128 + 1) as i128),
    {
        let c = cur[j];
        let code: u32 = c as u32;
        key.push((code as i128) + 1);
        assert(key@ =~= start + Seq::new((j + 1) as nat, |i: int| (cur@[i] as u32 as i128 + 1) as i128));
    }
    key.push(0);
    assert(key@ =~= start + encode_name(cur@));
}

/// Whether the characters `cur` are exactly `.`.
fn is_dot(cur: &Vec<char>) -> (r: bool)
    ensures
        r == (cur@ == seq!['.']),
{
    if cur.len() == 1 && cur[0] == '.' {
        assert(cur@ =~= seq!['.']);
        true
    } else {
        false
    }
}

/// Appends the encoding of the component `cur` to `key`.
fn push_component(key: &mut Vec<i128>, cur: &Vec<char>)
    ensures
        final(key)@ == old(key)@ + encode_component(cur@),
{
    let ghost start = key@;
    if cur.len() == 0 {
        key.push(-3);
        assert(key@ =~= start + encode_component(cur@));
    } else if is_dot(cur) {
        key.push(-2);
        assert(key@ =~= start + encode_component(cur@));
    } else if cur.len() == 2 && cur[0] == '.' && cur[1] == '.' {
        assert(cur@ =~= seq!['.', '.']);
        key.push(-1);
        assert(key@ =~= start + encode_component(cur@));
    } else {
        assert(cur@ != seq!['.', '.']) by {
            if cur@ == seq!['.', '.'] {
                assert(cur@[0] == '.' && cur@[1] == '.');
            }
        }
        push_name(key, cur);
    }
}

/// The kept components, extended by the component `cur`.
proof fn lemma_keep_step(cur: Seq<char>, rest: Seq<Seq<char>>, lead: bool)
    ensures
        keep_parts(seq![cur] + rest, lead) == (if cur == seq!['.'] && !lead {
            keep_parts(rest, false)
        } else {
            seq![cur] + keep_parts(rest, false)
        }),
{
    let y = seq![cur] + rest;
    assert(y[0] == cur);
    assert(y.drop_first() =~= rest);
}

/// The sort key of the path `s`, computed.
fn path_key_of(s: &str) -> (r: Vec<i128>)
    ensures
        r@ == path_key(s@),
{
    let cs = chars_of(s);
    let n = cs.len();
    let mut key: Vec<i128> = Vec::new();
    let mut cur: Vec<char> = Vec::new();
    let rooted = n > 0 && cs[0] == '/';
    let mut lead = !rooted;
    let ghost mut done: Seq<Seq<char>> = Seq::empty();
    if rooted {
        push_component(&mut key, &cur);
        proof {
            assert(cur@ =~= Seq::<char>::empty());
            done = seq![Seq::<char>::empty()];
            lemma_encode_push(Seq::empty(), Seq::empty());
            assert(key@ =~= encode_components(done));
        }
    }
    assert(cs@.skip(0) =~= cs@);
    assert(path_components(s@) == done + keep_parts(runs_from(cs@.skip(0), cur@), lead));
    for i in 0..n
        invariant
            n == cs@.len(),
            cs@ == s@,
            path_components(s@) == done + keep_parts(runs_from(cs@.skip(i as int), cur@), lead),
            key@ == encode_components(done),
    {
        let c = cs[i];
        let ghost rest = cs@.skip(i as int);
        assert(rest[0] == c);
        assert(rest.drop_first() =~= cs@.skip(i + 1));
        if c == '/' {
            if cur.len() > 0 {
                let ghost tail = runs_from(cs@.skip(i + 1), Seq::empty());
                assert(runs_from(rest, cur@) == seq![cur@] + tail);
                proof {
                    lemma_keep_step(cur@, tail, lead);
                }
                if is_dot(&cur) && !lead {
                } else {
                    push_component(&mut key, &cur);
                    proof {
                        lemma_encode_push(done, cur@);
                        assert(done + (seq![cur@] + keep_parts(tail, false)) =~= done.push(cur@) + keep_parts(tail, false));
                        done = done.push(cur@);
                    }
                }
                lead = false;
            } else {
                assert(runs_from(rest, cur@) =~= runs_from(cs@.skip(i + 1), Seq::empty()));
            }
            cur = Vec::new();
        } else {
            cur.push(c);
        }
    }
    assert(cs@.skip(n as int) =~= Seq::<char>::empty());
    if cur.len() > 0 {
        assert(runs_from(cs@.skip(n as int), cur@) == seq![cur@]);
        proof {
            lemma_keep_step(cur@, Seq::empty(), lead);
            assert(seq![cur@] + Seq::<Seq<char>>::empty() =~= seq![cur@]);
        }
        if is_dot(&cur) && !lead {
            assert(done + keep_parts(Seq::<Seq<char>>::empty(), false) =~= done);
        } else {
            push_component(&mut key, &cur);
            proof {
                lemma_encode_push(done, cur@);
                assert(done + (seq![cur@] + keep_parts(Seq::<Seq<char>>::empty(), false)) =~= done.push(cur@));
            }
        }
    } else {
        assert(done + keep_parts(runs_from(cs@.skip(n as int), cur@), lead) =~= done);
    }
    key
}

// ---------------------------------------------------------------------------
// The application state
// ---------------------------------------------------------------------------

/// 2 to the 64th: `u64` sums wrap around at this value.
pub open spec fn wrap64(x: int) -> int {
    x % 0x1_0000_0000_0000_0000
}

/// Total size of the first `n` candidates that count as reclaimable: not
/// deleted, sized, and at least `min_size`.
pub open spec fn reclaimable_sum(cands: Seq<Candidate>, min_size: u64, n: nat) -> int
    decreases n,
{
    if n == 0 {
        0
    } else {
        let c = cands[n - 1];
        reclaimable_sum(cands, min_size, (n - 1) as nat) + (match c.size {
            Some(s) => if !c.deleted && s >= min_size {
                s as int
            } else {
                0
            },
            None => 0,
        })
    }
}

proof fn lemma_reclaimable_prefix_ignores_selection(a: Seq<Candidate>, b: Seq<Candidate>, min_size: u64, n: nat)
    requires
        n <= a.len(),
        a.len() == b.len(),
        forall|k: int| 0 <= k < a.len() ==> #[trigger] b[k] == (Candidate { selected: b[k].selected, ..a[k] }),
    ensures
        reclaimable_sum(a, min_size, n) == reclaimable_sum(b, min_size, n),
    decreases n,
{
    if n > 0 {
        lemma_reclaimable_prefix_ignores_selection(a, b, min_size, (n - 1) as nat);
        assert(b[n - 1] == Candidate { selected: b[n - 1].selected, ..a[n - 1] });
    }
}

/// The reclaimable total does not depend on the selection: two lists that
/// differ only in which rows are selected have the same total.
pub proof fn lemma_reclaimable_ignores_selection(a: Seq<Candidate>, b: Seq<Candidate>, min_size: u64)
    requires
        a.len() == b.len(),
        forall|k: int| 0 <= k < a.len() ==> #[trigger] b[k] == (Candidate { selected: b[k].selected, ..a[k] }),
    ensures
        reclaimable_sum(a, min_size, a.len()) == reclaimable_sum(b, min_size, b.len()),
{
    lemma_reclaimable_prefix_ignores_selection(a, b, min_size, a.len());
}

proof fn lemma_reclaimable_prefix_strike(a: Seq<Candidate>, k: int, min_size: u64, n: nat)
    requires
        0 <= k < a.len(),
        n <= a.len(),
        !a[k].deleted,
    ensures
        reclaimable_sum(a.update(k, Candidate { deleted: true, ..a[k] }), min_size, n) == reclaimable_sum(
            a,
            min_size,
            n,
        ) - (if n > k && a[k].size is Some && a[k].size.unwrap() >= min_size {
            a[k].size.unwrap() as int
        } else {
            0
        }),
    decreases n,
{
    if n > 0 {
        lemma_reclaimable_prefix_strike(a, k, min_size, (n - 1) as nat);
    }
}

/// Striking out a row takes exactly its size off the reclaimable total when
/// it counted (sized, at least the minimum size), and leaves the total as it
/// was otherwise.
pub proof fn lemma_reclaimable_strike(a: Seq<Candidate>, k: int, min_size: u64, s: u64)
    requires
        0 <= k < a.len(),
        !a[k].deleted,
    ensures
        a[k].size == Some(s) && s >= min_size ==> reclaimable_sum(
            a.update(k, Candidate { deleted: true, ..a[k] }),
            min_size,
            a.len(),
        ) == reclaimable_sum(a, min_size, a.len()) - s,
        (a[k].size is None || a[k].size.unwrap() < min_size) ==> reclaimable_sum(
            a.update(k, Candidate { deleted: true, ..a[k] }),
            min_size,
            a.len(),
        ) == reclaimable_sum(a, min_size, a.len()),
{
    lemma_reclaimable_prefix_strike(a, k, min_size, a.len());
}

proof fn lemma_picked_prefix_select(a: Seq<Candidate>, k: int, n: nat)
    requires
        0 <= k < a.len(),
        n <= a.len(),
        !a[k].deleted,
        !a[k].selected,
    ensures
        picked_count(a.update(k, Candidate { selected: true, ..a[k] }), n) == picked_count(a, n) + (if n > k {
            1int
        } else {
            0
        }),
        picked_bytes(a.update(k, Candidate { selected: true, ..a[k] }), n) == picked_bytes(a, n) + (if n > k {
            match a[k].size {
                Some(b) => b as int,
                None => 0,
            }
        } else {
            0
        }),
    decreases n,
{
    if n > 0 {
        lemma_picked_prefix_select(a, k, (n - 1) as nat);
    }
}

/// Selecting one more live row adds one to the selected count and its size
/// (an unknown size as 0) to the selected bytes.
pub proof fn lemma_select_adds_row(a: Seq<Candidate>, k: int)
    requires
        0 <= k < a.len(),
        !a[k].deleted,
        !a[k].selected,
    ensures
        picked_count(a.update(k, Candidate { selected: true, ..a[k] }), a.len()) == picked_count(a, a.len()) + 1,
        picked_bytes(a.update(k, Candidate { selected: true, ..a[k] }), a.len()) == picked_bytes(a, a.len())
            + match a[k].size {
            Some(b) => b as int,
            None => 0,
        },
{
    lemma_picked_prefix_select(a, k, a.len());
}

/// With no minimum size every row passes the size filter; with a minimum, a
/// sized row passes exactly when its size reaches it, and an unsized row
/// does not pass.
pub proof fn lemma_size_filter(c: Candidate, min_size: u64)
    ensures
        min_size == 0 ==> passes_size(c, min_size),
        min_size > 0 && c.size is None ==> !passes_size(c, min_size),
        c.size is Some ==> (passes_size(c, min_size) <==> min_size <= c.size.unwrap()),
{
}

/// A candidate that is selected and not yet deleted.
pub open spec fn picked(c: Candidate) -> bool {
    c.selected && !c.deleted
}

/// Number of picked candidates among the first `n`.
pub open spec fn picked_count(cands: Seq<Candidate>, n: nat) -> int
    decreases n,
{
    if n == 0 {
        0
    } else {
        picked_count(cands, (n - 1) as nat) + if picked(cands[n - 1]) {
            1int
        } else {
            0
        }
    }
}

/// Total known size of the picked candidates among the first `n`.
pub open spec fn picked_bytes(cands: Seq<Candidate>, n: nat) -> int
    decreases n,
{
    if n == 0 {
        0
    } else {
        picked_bytes(cands, (n - 1) as nat) + if picked(cands[n - 1]) {
            match cands[n - 1].size {
                Some(s) => s as int,
                None => 0,
            }
        } else {
            0
        }
    }
}

/// `k` is the first position of `cands` holding the candidate `id`.
pub open spec fn first_with_id(cands: Seq<Candidate>, id: usize, k: int) -> bool {
    &&& 0 <= k < cands.len()
    &&& cands[k].id == id
    &&& forall|j: int| 0 <= j < k ==> #[trigger] cands[j].id != id
}

/// The first position of `cands` holding the candidate `id`, or -1.
pub open spec fn first_pos(cands: Seq<Candidate>, id: usize) -> int
    decreases cands.len(),
{
    if cands.len() == 0 {
        -1
    } else if cands[0].id == id {
        0
    } else {
        let r = first_pos(cands.drop_first(), id);
        if r < 0 {
            -1
        } else {
            r + 1
        }
    }
}

/// [`first_pos`] finds the first candidate with the id, if there is one.
pub proof fn lemma_first_pos(cands: Seq<Candidate>, id: usize)
    ensures
        first_pos(cands, id) >= 0 ==> first_with_id(cands, id, first_pos(cands, id)),
        first_pos(cands, id) < 0 ==> forall|k: int| 0 <= k < cands.len() ==> #[trigger] cands[k].id != id,
    decreases cands.len(),
{
    if cands.len() > 0 && cands[0].id != id {
        lemma_first_pos(cands.drop_first(), id);
        let r = first_pos(cands.drop_first(), id);
        if r >= 0 {
            assert forall|j: int| 0 <= j < r + 1 implies #[trigger] cands[j].id != id by {
                if j > 0 {
                    assert(cands[j] == cands.drop_first()[j - 1]);
                }
            }
        } else {
            assert forall|k: int| 0 <= k < cands.len() implies #[trigger] cands[k].id != id by {
                if k > 0 {
                    assert(cands[k] == cands.drop_first()[k - 1]);
                }
            }
        }
    }
}

/// The first position with a given id is unique.
proof fn lemma_first_with_id_unique(cands: Seq<Candidate>, id: usize, k: int, l: int)
    requires
        first_with_id(cands, id, k),
        first_with_id(cands, id, l),
    ensures
        k == l,
{
    if k < l {
        assert(cands[k].id != id);
    } else if l < k {
        assert(cands[l].id != id);
    }
}

/// `cands` after recording a size and modification time for candidate `id`.
pub open spec fn sized(cands: Seq<Candidate>, id: usize, bytes: u64, mtime: Option<i128>) -> Seq<Candidate> {
    let k = first_pos(cands, id);
    if k >= 0 {
        cands.update(k, with_size(cands[k], bytes, mtime))
    } else {
        cands
    }
}

/// `cands` after candidate `id` was removed: struck out and deselected.
pub open spec fn struck(cands: Seq<Candidate>, id: usize) -> Seq<Candidate> {
    let k = first_pos(cands, id);
    if k >= 0 {
        cands.update(k, Candidate { deleted: true, selected: false, ..cands[k] })
    } else {
        cands
    }
}

/// No candidate of `cands` is both deleted and selected.
pub open spec fn struck_unselected(cands: Seq<Candidate>) -> bool {
    forall|k: int| 0 <= k < cands.len() ==> !(#[trigger] cands[k].deleted && cands[k].selected)
}

/// Candidate `id` is listed and not deleted yet, so striking it out deletes
/// a row.
pub open spec fn fresh_strike(cands: Seq<Candidate>, id: usize) -> bool {
    first_pos(cands, id) >= 0 && !cands[first_pos(cands, id)].deleted
}

/// `c` with its size and modification time replaced.
pub open spec fn with_size(c: Candidate, bytes: u64, mtime: Option<i128>) -> Candidate {
    Candidate { size: Some(bytes), mtime, ..c }
}

/// `c` marked as selected.
pub open spec fn with_selected(c: Candidate, selected: bool) -> Candidate {
    Candidate { selected, ..c }
}

/// What an [`AppState`] holds, as plain values.
pub struct AppView {
    pub root: Seq<char>,
    pub dry_run: bool,
    pub min_size: u64,
    pub candidates: Seq<Candidate>,
    pub sort: SortMode,
    pub filter: Seq<char>,
    pub cursor: usize,
    pub scanning: bool,
    pub sizing: bool,
    pub reclaimed: u64,
    pub spinner: usize,
    pub deleting: bool,
}

/// Whole-app state owned by the UI thread.
pub struct AppState {
    pub root: String,
    pub dry_run: bool,
    pub min_size: u64,
    /// Every candidate found so far, in the order found.
    pub candidates: Vec<Candidate>,
    pub sort: SortMode,
    pub filter: String,
    /// Cursor position within the current (sorted and filtered) view.
    pub cursor: usize,
    pub scanning: bool,
    pub sizing: bool,
    pub reclaimed: u64,
    /// Spinner animation tick.
    pub spinner: usize,
    /// A batch of deletions is running in the background.
    pub deleting: bool,
}

impl View for AppState {
    type V = AppView;

    open spec fn view(&self) -> AppView {
        AppView {
            root: self.root@,
            dry_run: self.dry_run,
            min_size: self.min_size,
            candidates: self.candidates@,
            sort: self.sort,
            filter: self.filter@,
            cursor: self.cursor,
            scanning: self.scanning,
            sizing: self.sizing,
            reclaimed: self.reclaimed,
            spinner: self.spinner,
            deleting: self.deleting,
        }
    }
}

impl AppState {
    /// The candidate under the cursor, if any.
    pub open spec fn focus(&self) -> Option<usize> {
        if self.cursor < self.view_seq().len() {
            Some(self.view_seq()[self.cursor as int])
        } else {
            None
        }
    }

    /// The filter text as it is matched: lowercased; an empty filter stays
    /// empty.
    pub open spec fn filter_key(&self) -> Seq<char> {
        if self.filter@.len() == 0 {
            Seq::empty()
        } else {
            lowercase(self.filter@)
        }
    }

    /// Candidate `i` is shown under the current size filter and filter text.
    pub open spec fn shows(&self, i: int) -> bool {
        &&& 0 <= i < self.candidates@.len()
        &&& passes_size(self.candidates@[i], self.min_size)
        &&& passes_filter(self.candidates@[i], self.filter_key())
    }

    /// The shown candidates in display order.
    pub open spec fn view_seq(&self) -> Seq<usize> {
        view_of(self.candidates@, self.min_size, self.filter_key(), self.sort)
    }

    /// `other` agrees with `self` on everything but the candidates.
    pub open spec fn same_settings(&self, other: &AppState) -> bool {
        &&& self.root == other.root
        &&& self.dry_run == other.dry_run
        &&& self.min_size == other.min_size
        &&& self.sort == other.sort
        &&& self.filter == other.filter
        &&& self.cursor == other.cursor
        &&& self.scanning == other.scanning
        &&& self.sizing == other.sizing
        &&& self.reclaimed == other.reclaimed
        &&& self.spinner == other.spinner
        &&& self.deleting == other.deleting
    }

    /// `other` agrees with `self` on everything but the cursor.
    pub open spec fn same_but_cursor(&self, other: &AppState) -> bool {
        &&& self.root == other.root
        &&& self.dry_run == other.dry_run
        &&& self.min_size == other.min_size
        &&& self.candidates@ == other.candidates@
        &&& self.sort == other.sort
        &&& self.filter == other.filter
        &&& self.scanning == other.scanning
        &&& self.sizing == other.sizing
        &&& self.reclaimed == other.reclaimed
        &&& self.spinner == other.spinner
        &&& self.deleting == other.deleting
    }

    /// The state a session starts in: no candidates, sorted by size, no
    /// filter, scanning and sizing under way.
    pub fn new(root: String, dry_run: bool, min_size: u64) -> (s: Self)
        ensures
            s.root == root,
            s.dry_run == dry_run,
            s.min_size == min_size,
            s.candidates@.len() == 0,
            s.sort == SortMode::Size,
            s.filter@.len() == 0,
            s.cursor == 0,
            s.scanning,
            s.sizing,
            s.reclaimed == 0,
            s.spinner == 0,
            !s.deleting,
    {
        AppState {
            root,
            dry_run,
            min_size,
            candidates: Vec::new(),
            sort: SortMode::Size,
            filter: String::new(),
            cursor: 0,
            scanning: true,
            sizing: true,
            reclaimed: 0,
            spinner: 0,
            deleting: false,
        }
    }

    /// Adds a newly found candidate at the end of the list.
    pub fn push(&mut self, c: Candidate)
        ensures
            final(self).candidates@ == old(self).candidates@.push(c),
            final(self).same_settings(old(self)),
    {
        self.candidates.push(c);
    }

    /// Records the size and modification time reported for candidate `id`
    /// (the first one with that id); without such a candidate nothing changes.
    pub fn set_size(&mut self, id: usize, bytes: u64, mtime: Option<i128>)
        ensures
            final(self).same_settings(old(self)),
            forall|k: int|
                first_with_id(old(self).candidates@, id, k) ==> final(self).candidates@
                    == old(self).candidates@.update(k, with_size(old(self).candidates@[k], bytes, mtime)),
            (forall|k: int| 0 <= k < old(self).candidates@.len() ==> #[trigger] old(self).candidates@[k].id != id)
                ==> final(self).candidates@ == old(self).candidates@,
            final(self).candidates@ == sized(old(self).candidates@, id, bytes, mtime),
    {
        proof {
            lemma_first_pos(old(self).candidates@, id);
        }
        let n = self.candidates.len();
        for i in 0..n
            invariant
                n == self.candidates@.len(),
                self.candidates@ == old(self).candidates@,
                self.same_settings(old(self)),
                forall|j: int| 0 <= j < i ==> #[trigger] self.candidates@[j].id != id,
        {
            if self.candidates[i].id == id {
                let ghost before = self.candidates@;
                self.candidates[i].size = Some(bytes);
                self.candidates[i].mtime = mtime;
                proof {
                    assert(self.candidates@ =~= before.update(i as int, with_size(before[i as int], bytes, mtime)));
                    assert forall|k: int| first_with_id(old(self).candidates@, id, k) implies k == i by {
                        if k < i {
                        } else if k > i {
                            assert(old(self).candidates@[i as int].id == id);
                        }
                    }
                    lemma_first_pos(old(self).candidates@, id);
                    let fp = first_pos(old(self).candidates@, id);
                    assert(first_with_id(old(self).candidates@, id, i as int));
                    if fp < 0 {
                        assert(old(self).candidates@[i as int].id == id);
                    } else {
                        lemma_first_with_id_unique(old(self).candidates@, id, fp, i as int);
                    }
                }
                return;
            }
        }
    }

    /// Strikes out candidate `id` (the first one with that id) after its
    /// removal: marks it deleted and deselects it. Returns whether that
    /// candidate was there and not deleted yet.
    pub(crate) fn strike(&mut self, id: usize) -> (fresh: bool)
        ensures
            final(self).same_settings(old(self)),
            final(self).candidates@ == struck(old(self).candidates@, id),
            fresh == fresh_strike(old(self).candidates@, id),
    {
        proof {
            lemma_first_pos(old(self).candidates@, id);
        }
        let n = self.candidates.len();
        for i in 0..n
            invariant
                n == self.candidates@.len(),
                self.candidates@ == old(self).candidates@,
                self.same_settings(old(self)),
                forall|j: int| 0 <= j < i ==> #[trigger] self.candidates@[j].id != id,
        {
            if self.candidates[i].id == id {
                let fresh = !self.candidates[i].deleted;
                self.candidates[i].deleted = true;
                self.candidates[i].selected = false;
                proof {
                    lemma_first_pos(old(self).candidates@, id);
                    assert(first_with_id(old(self).candidates@, id, i as int));
                    let fp = first_pos(old(self).candidates@, id);
                    if fp < 0 {
                        assert(old(self).candidates@[i as int].id == id);
                    } else {
                        lemma_first_with_id_unique(old(self).candidates@, id, fp, i as int);
                    }
                    assert(self.candidates@ =~= struck(old(self).candidates@, id));
                }
                return fresh;
            }
        }
        false
    }

    /// Total bytes of all not-yet-deleted candidates that pass the size
    /// filter; like the `u64` sum it models, it wraps around past `u64::MAX`.
    pub fn reclaimable(&self) -> (r: u64)
        ensures
            r as int == wrap64(reclaimable_sum(self.candidates@, self.min_size, self.candidates@.len())),
    {
        let n = self.candidates.len();
        let mut total: u64 = 0;
        for i in 0..n
            invariant
                n == self.candidates@.len(),
                total as int == wrap64(reclaimable_sum(self.candidates@, self.min_size, i as nat)),
        {
            let c = &self.candidates[i];
            if !c.deleted {
                if let Some(s) = c.size {
                    if s >= self.min_size {
                        proof {
                            lemma_wrap_add(reclaimable_sum(self.candidates@, self.min_size, i as nat), total as int, s as int);
                        }
                        total = total.wrapping_add(s);
                    }
                }
            }
        }
        total
    }

    /// Whether candidate `i` passes the size filter and the lowercased
    /// filter `f`.
    fn passes(&self, i: usize, f: &Vec<char>) -> (r: bool)
        requires
            i < self.candidates@.len(),
            f@ == self.filter_key(),
        ensures
            r == self.shows(i as int),
    {
        let c = &self.candidates[i];
        let size_ok = match c.size {
            Some(s) => s >= self.min_size,
            None => self.min_size == 0,
        };
        if !size_ok {
            return false;
        }
        if f.len() == 0 {
            return true;
        }
        filter_matches(to_lowercase(c.path.as_str()).as_str(), to_lowercase(c.ecosystem.as_str()).as_str(), f.as_slice())
    }

    /// The filter text as it is matched, computed.
    fn filter_chars(&self) -> (f: Vec<char>)
        ensures
            f@ == self.filter_key(),
    {
        let raw = chars_of(self.filter.as_str());
        if raw.len() == 0 {
            Vec::new()
        } else {
            chars_of(to_lowercase(self.filter.as_str()).as_str())
        }
    }

    /// Indices into the candidates, filtered and ordered for display.
    pub fn view_indices(&self) -> (r: Vec<usize>)
        ensures
            r@ == self.view_seq(),
            is_view(self.candidates@, self.min_size, self.filter_key(), self.sort, r@),
    {
        let f = self.filter_chars();
        let n = self.candidates.len();
        let ghost cands = self.candidates@;
        let mut shown: Vec<usize> = Vec::new();
        let mut keys: Vec<Vec<i128>> = Vec::new();
        for i in 0..n
            invariant
                n == cands.len(),
                cands == self.candidates@,
                f@ == self.filter_key(),
                shown@.len() == keys@.len(),
                forall|k: int, l: int| 0 <= k < l < shown@.len() ==> #[trigger] shown@[k] < #[trigger] shown@[l],
                forall|k: int| 0 <= k < shown@.len() ==> #[trigger] shown@[k] < i,
                forall|k: int| 0 <= k < shown@.len() ==> self.shows(#[trigger] shown@[k] as int),
                forall|j: usize| j < i && self.shows(j as int) ==> #[trigger] shown@.contains(j),
                forall|k: int| 0 <= k < keys@.len() ==> #[trigger] keys@[k]@ == sort_key(cands[shown@[k] as int], self.sort),
        {
            let ghost before = shown@;
            if self.passes(i, &f) {
                let key = sort_key_of(&self.candidates[i], self.sort);
                shown.push(i);
                keys.push(key);
            }
            proof {
                assert forall|j: usize| j < i + 1 && self.shows(j as int) implies #[trigger] shown@.contains(j) by {
                    if j == i {
                        assert(shown@[shown@.len() - 1] == i);
                    } else {
                        assert(before.contains(j));
                        let p = choose|p: int| 0 <= p < before.len() && before[p] == j;
                        assert(shown@[p] == j);
                    }
                }
            }
        }
        let order = sort_positions(&keys);
        let ghost kv = keys_view(keys@);
        let m = order.len();
        let mut r: Vec<usize> = Vec::new();
        for k in 0..m
            invariant
                m == order@.len(),
                m == shown@.len(),
                sorted_positions(kv, order@, m as int),
                kv == keys_view(keys@),
                r@.len() == k,
                forall|j: int| 0 <= j < k ==> #[trigger] r@[j] == shown@[order@[j] as int],
        {
            r.push(shown[order[k]]);
        }
        proof {
            let mode = self.sort;
            let fk = self.filter_key();
            assert forall|j: int| 0 <= j < r@.len() implies #[trigger] r@[j] < cands.len() && passes_size(cands[r@[j] as int], self.min_size) && passes_filter(cands[r@[j] as int], fk) by {
                assert(order@[j] < m);
                assert(self.shows(shown@[order@[j] as int] as int));
            }
            assert forall|j: usize| j < cands.len() && passes_size(cands[j as int], self.min_size) && passes_filter(cands[j as int], fk) implies #[trigger] r@.contains(j) by {
                assert(self.shows(j as int));
                assert(shown@.contains(j));
                let p = choose|p: int| 0 <= p < shown@.len() && shown@[p] == j;
                assert(order@.contains(p as usize));
                let q = choose|q: int| 0 <= q < order@.len() && order@[q] == p as usize;
                assert(r@[q] == j);
            }
            assert forall|a: int, b: int| 0 <= a < b < r@.len() implies precedes(cands, mode, #[trigger] r@[a] as int, #[trigger] r@[b] as int) by {
                let pa = order@[a] as int;
                let pb = order@[b] as int;
                assert(entry_lt(kv, pa, pb));
                assert(kv[pa] == keys@[pa]@);
                assert(kv[pb] == keys@[pb]@);
                if pa < pb {
                    assert(shown@[pa] < shown@[pb]);
                } else if pa > pb {
                    assert(shown@[pb] < shown@[pa]);
                }
            }
            assert(r@.no_duplicates()) by {
                assert forall|a: int, b: int| 0 <= a < r@.len() && 0 <= b < r@.len() && a != b implies r@[a] != r@[b] by {
                    let pa = order@[a] as int;
                    let pb = order@[b] as int;
                    if a < b {
                        assert(entry_lt(kv, pa, pb));
                        lemma_lex_asymmetric(kv[pa], kv[pb]);
                    } else {
                        assert(entry_lt(kv, pb, pa));
                        lemma_lex_asymmetric(kv[pb], kv[pa]);
                    }
                    if pa < pb {
                        assert(shown@[pa] < shown@[pb]);
                    } else if pa > pb {
                        assert(shown@[pb] < shown@[pa]);
                    }
                }
            }
            assert(is_view(cands, self.min_size, fk, mode, r@));
            lemma_view_unique(cands, self.min_size, fk, mode, r@, self.view_seq());
        }
        r
    }

    /// Number of candidates shown.
    pub fn found_count(&self) -> (r: usize)
        ensures
            r == self.view_seq().len(),
    {
        self.view_indices().len()
    }

    /// The candidate at position `idx` of the list.
    pub fn get(&self, idx: usize) -> (r: &Candidate)
        requires
            idx < self.candidates@.len(),
        ensures
            *r == self.candidates@[idx as int],
    {
        &self.candidates[idx]
    }

    /// The candidate at position `idx` of the list, for changing it.
    pub fn candidate_mut(&mut self, idx: usize) -> (r: &mut Candidate)
        requires
            idx < old(self).candidates@.len(),
        ensures
            *r == old(self).candidates@[idx as int],
            final(self).candidates@ == old(self).candidates@.update(idx as int, *final(r)),
            final(self).same_settings(old(self)),
    {
        &mut self.candidates[idx]
    }

    /// Selects every shown candidate that is not deleted.
    pub fn select_all_in_view(&mut self)
        ensures
            final(self).same_settings(old(self)),
            final(self).candidates@.len() == old(self).candidates@.len(),
            forall|k: int|
                0 <= k < old(self).candidates@.len() ==> #[trigger] final(self).candidates@[k] == (if old(
                    self,
                ).shows(k) && !old(self).candidates@[k].deleted {
                    with_selected(old(self).candidates@[k], true)
                } else {
                    old(self).candidates@[k]
                }),
    {
        let view = self.view_indices();
        let m = view.len();
        let ghost start = self.candidates@;
        let n = self.candidates.len();
        for j in 0..m
            invariant
                m == view@.len(),
                n == start.len(),
                is_view(start, self.min_size, old(self).filter_key(), self.sort, view@),
                self.same_settings(old(self)),
                start == old(self).candidates@,
                self.candidates@.len() == start.len(),
                forall|k: int|
                    0 <= k < start.len() ==> #[trigger] self.candidates@[k] == (if view@.take(j as int).contains(k as usize) && !start[k].deleted {
                        with_selected(start[k], true)
                    } else {
                        start[k]
                    }),
        {
            let i = view[j];
            let ghost before = self.candidates@;
            if !self.candidates[i].deleted {
                self.candidates[i].selected = true;
            }
            proof {
                let t0 = view@.take(j as int);
                let t1 = view@.take(j + 1);
                assert forall|k: int| 0 <= k < start.len() implies #[trigger] self.candidates@[k] == (if t1.contains(k as usize) && !start[k].deleted {
                    with_selected(start[k], true)
                } else {
                    start[k]
                }) by {
                    if k == i as int {
                        assert(t1[j as int] == i);
                    } else {
                        if t1.contains(k as usize) {
                            let q = choose|q: int| 0 <= q < t1.len() && t1[q] == k as usize;
                            assert(q != j);
                            assert(t0[q] == k as usize);
                        }
                        if t0.contains(k as usize) {
                            let q = choose|q: int| 0 <= q < t0.len() && t0[q] == k as usize;
                            assert(t1[q] == k as usize);
                        }
                    }
                }
            }
        }
        proof {
            assert(view@.take(m as int) =~= view@);
            assert(n == start.len());
            assert forall|k: int| 0 <= k < start.len() implies view@.contains(k as usize) == old(self).shows(k) by {
                if view@.contains(k as usize) {
                    let q = choose|q: int| 0 <= q < view@.len() && view@[q] == k as usize;
                }
            }
        }
    }

    /// Deselects every candidate.
    pub fn clear_selection(&mut self)
        ensures
            final(self).same_settings(old(self)),
            final(self).candidates@.len() == old(self).candidates@.len(),
            forall|k: int|
                0 <= k < old(self).candidates@.len() ==> #[trigger] final(self).candidates@[k]
                    == with_selected(old(self).candidates@[k], false),
    {
        let n = self.candidates.len();
        for i in 0..n
            invariant
                n == self.candidates@.len(),
                n == old(self).candidates@.len(),
                self.same_settings(old(self)),
                forall|k: int| 0 <= k < i ==> #[trigger] self.candidates@[k] == with_selected(old(self).candidates@[k], false),
                forall|k: int| i <= k < n ==> #[trigger] self.candidates@[k] == old(self).candidates@[k],
        {
            self.candidates[i].selected = false;
        }
    }

    /// Keeps the cursor on a shown row: past the end it moves to the last
    /// row, and with no rows it goes to 0.
    pub fn clamp_cursor(&mut self)
        ensures
            final(self).candidates@ == old(self).candidates@,
            final(self).cursor == (if old(self).view_seq().len() == 0 {
                0
            } else if old(self).cursor >= old(self).view_seq().len() {
                (old(self).view_seq().len() - 1) as usize
            } else {
                old(self).cursor
            }),
            final(self).same_but_cursor(old(self)),
    {
        let n = self.found_count();
        if n == 0 {
            self.cursor = 0;
        } else if self.cursor >= n {
            self.cursor = n - 1;
        }
    }

    /// The candidate under the cursor, if any.
    pub fn focused_index(&self) -> (r: Option<usize>)
        ensures
            r == self.focus(),
            r matches Some(i) ==> i < self.candidates@.len() && self.shows(i as int),
    {
        let view = self.view_indices();
        if self.cursor < view.len() {
            assert(view@[self.cursor as int] < self.candidates@.len());
            Some(view[self.cursor])
        } else {
            None
        }
    }

    /// The shown candidates that are picked, in display order.
    pub open spec fn picked_in_view(&self) -> Seq<usize> {
        self.view_seq().filter(|i: usize| picked(self.candidates@[i as int]))
    }

    /// What a delete request acts on: the picked candidates in view, or, when
    /// none is picked, the focused candidate if it is not deleted.
    pub open spec fn targets(&self) -> Seq<usize> {
        if self.picked_in_view().len() > 0 {
            self.picked_in_view()
        } else if self.cursor < self.view_seq().len() && !self.candidates@[self.view_seq()[self.cursor as int] as int].deleted {
            seq![self.view_seq()[self.cursor as int]]
        } else {
            Seq::empty()
        }
    }

    /// Candidate indices selected for deletion (or the focused one if none
    /// are explicitly selected). Excludes already-deleted entries.
    pub fn deletion_targets(&self) -> (r: Vec<usize>)
        ensures
            r@ == self.targets(),
    {
        let view = self.view_indices();
        let m = view.len();
        let ghost pred = |i: usize| picked(self.candidates@[i as int]);
        let mut selected: Vec<usize> = Vec::new();
        for j in 0..m
            invariant
                m == view@.len(),
                view@ == self.view_seq(),
                is_view(self.candidates@, self.min_size, self.filter_key(), self.sort, view@),
                pred == (|i: usize| picked(self.candidates@[i as int])),
                selected@ == view@.take(j as int).filter(pred),
        {
            reveal_with_fuel(Seq::<_>::filter, 1);
            let i = view[j];
            if self.candidates[i].selected && !self.candidates[i].deleted {
                selected.push(i);
            }
            assert(view@.take(j + 1).drop_last() =~= view@.take(j as int));
        }
        assert(view@.take(m as int) =~= view@);
        if selected.len() > 0 {
            return selected;
        }
        match self.focused_index() {
            Some(i) => {
                if !self.candidates[i].deleted {
                    vec![i]
                } else {
                    Vec::new()
                }
            },
            None => Vec::new(),
        }
    }

    /// Number and total known size of the picked candidates; the size, like
    /// the `u64` sum it models, wraps around past `u64::MAX`.
    pub fn selected_summary(&self) -> (r: (usize, u64))
        ensures
            r.0 as int == picked_count(self.candidates@, self.candidates@.len()),
            r.1 as int == wrap64(picked_bytes(self.candidates@, self.candidates@.len())),
    {
        let n = self.candidates.len();
        let mut count: usize = 0;
        let mut bytes: u64 = 0;
        for i in 0..n
            invariant
                n == self.candidates@.len(),
                count as int == picked_count(self.candidates@, i as nat),
                count <= i,
                bytes as int == wrap64(picked_bytes(self.candidates@, i as nat)),
        {
            let c = &self.candidates[i];
            if c.selected && !c.deleted {
                count = count + 1;
                if let Some(s) = c.size {
                    proof {
                        lemma_wrap_add(picked_bytes(self.candidates@, i as nat), bytes as int, s as int);
                    }
                    bytes = bytes.wrapping_add(s);
                }
            }
        }
        (count, bytes)
    }
}

/// The display order of a state satisfies [`is_view`]: it lists exactly the
/// shown candidates, each once, in order.
pub proof fn lemma_view(app: &AppState)
    ensures
        is_view(app.candidates@, app.min_size, app.filter_key(), app.sort, app.view_seq()),
{
    assert(app.candidates.len() == app.candidates@.len());
    lemma_view_exists(app.candidates@, app.min_size, app.filter_key(), app.sort);
}

/// Sequences without duplicates holding the same elements have the same
/// length.
proof fn lemma_same_elements_same_len(s: Seq<usize>, t: Seq<usize>)
    requires
        s.no_duplicates(),
        t.no_duplicates(),
        forall|x: usize| s.contains(x) <==> t.contains(x),
    ensures
        s.len() == t.len(),
{
    s.unique_seq_to_set();
    t.unique_seq_to_set();
    assert(s.to_set() =~= t.to_set());
}

proof fn lemma_shown_below_len(cands: Seq<Candidate>, min_size: u64, f: Seq<char>, n: nat)
    ensures
        shown_below(cands, min_size, f, n).len() <= n,
    decreases n,
{
    if n > 0 {
        lemma_shown_below_len(cands, min_size, f, (n - 1) as nat);
    }
}

/// No more rows are shown than there are candidates.
pub proof fn lemma_view_len_bound(app: &AppState)
    ensures
        app.view_seq().len() <= app.candidates@.len(),
        app.view_seq().len() <= usize::MAX,
{
    lemma_found_count(app);
    lemma_shown_below_len(app.candidates@, app.min_size, app.filter_key(), app.candidates@.len());
    assert(app.candidates@.len() == app.candidates.len());
}

/// With no filter text, the rows shown are exactly those that pass the size
/// filter.
pub proof fn lemma_empty_filter_hides_nothing(app: &AppState)
    requires
        app.filter@.len() == 0,
    ensures
        forall|i: int| 0 <= i < app.candidates@.len() ==> (#[trigger] app.view_seq().contains(i as usize)
            <==> passes_size(app.candidates@[i], app.min_size)),
{
    lemma_view(app);
    assert forall|i: int| 0 <= i < app.candidates@.len() implies (#[trigger] app.view_seq().contains(i as usize)
        <==> passes_size(app.candidates@[i], app.min_size)) by {
        let v = app.view_seq();
        let u = i as usize;
        assert(app.candidates@.len() == app.candidates.len());
        assert(u as int == i);
        assert(app.filter_key().len() == 0);
        assert(passes_filter(app.candidates@[u as int], app.filter_key()));
        if v.contains(u) {
            let k = choose|k: int| 0 <= k < v.len() && v[k] == u;
            assert(passes_size(app.candidates@[v[k] as int], app.min_size));
        }
    }
}

/// The number of rows shown (what the footer reports as found) is the
/// number of candidates that pass the size filter and the filter text.
pub proof fn lemma_found_count(app: &AppState)
    ensures
        app.view_seq().len() == shown_below(app.candidates@, app.min_size, app.filter_key(), app.candidates@.len()).len(),
{
    lemma_view(app);
    let cands = app.candidates@;
    assert(app.candidates.len() == cands.len());
    let fl = shown_below(cands, app.min_size, app.filter_key(), cands.len());
    lemma_shown_below(cands, app.min_size, app.filter_key(), cands.len());
    let v = app.view_seq();
    assert forall|x: usize| v.contains(x) <==> fl.contains(x) by {
        if v.contains(x) {
            let k = choose|k: int| 0 <= k < v.len() && v[k] == x;
            assert(v[k] < cands.len());
        }
        if fl.contains(x) {
            let k = choose|k: int| 0 <= k < fl.len() && fl[k] == x;
            assert(fl[k] < cands.len());
        }
    }
    lemma_same_elements_same_len(v, fl);
}

/// Sorted by size, larger directories come first (unknown sizes count as 0),
/// and equal sizes keep the order in which they were found.
pub proof fn lemma_size_order(app: &AppState, k: int, l: int)
    requires
        app.sort == SortMode::Size,
        0 <= k < l < app.view_seq().len(),
    ensures
        ({
            let a = app.candidates@[app.view_seq()[k] as int];
            let b = app.candidates@[app.view_seq()[l] as int];
            let sa = match a.size { Some(s) => s as int, None => 0 };
            let sb = match b.size { Some(s) => s as int, None => 0 };
            sa > sb || (sa == sb && app.view_seq()[k] < app.view_seq()[l])
        }),
{
    lemma_view(app);
    let v = app.view_seq();
    assert(precedes(app.candidates@, app.sort, v[k] as int, v[l] as int));
    let ka = sort_key(app.candidates@[v[k] as int], app.sort);
    let kb = sort_key(app.candidates@[v[l] as int], app.sort);
    let a = app.candidates@[v[k] as int];
    let b = app.candidates@[v[l] as int];
    let sa = match a.size { Some(s) => s as int, None => 0 };
    let sb = match b.size { Some(s) => s as int, None => 0 };
    assert(ka[0] as int == 0 - sa);
    assert(kb[0] as int == 0 - sb);
    assert(ka.drop_first() =~= Seq::<i128>::empty());
    assert(kb.drop_first() =~= Seq::<i128>::empty());
    assert(!lex_lt(ka.drop_first(), kb.drop_first()));
    if ka == kb {
        assert(ka[0] == kb[0]);
    } else {
        assert(lex_lt(ka, kb));
        assert(ka[0] < kb[0]);
    }
}

/// Sorted by age, the oldest directories come first and those of unknown
/// age last; equal times keep the order in which they were found.
pub proof fn lemma_age_order(app: &AppState, k: int, l: int)
    requires
        app.sort == SortMode::Age,
        0 <= k < l < app.view_seq().len(),
    ensures
        ({
            let a = app.candidates@[app.view_seq()[k] as int];
            let b = app.candidates@[app.view_seq()[l] as int];
            match (a.mtime, b.mtime) {
                (Some(x), Some(y)) => x < y || (x == y && app.view_seq()[k] < app.view_seq()[l]),
                (Some(_), None) => true,
                (None, Some(_)) => false,
                (None, None) => app.view_seq()[k] < app.view_seq()[l],
            }
        }),
{
    lemma_view(app);
    let v = app.view_seq();
    assert(precedes(app.candidates@, app.sort, v[k] as int, v[l] as int));
    let a = app.candidates@[v[k] as int];
    let b = app.candidates@[v[l] as int];
    let ka = sort_key(a, app.sort);
    let kb = sort_key(b, app.sort);
    match (a.mtime, b.mtime) {
        (Some(x), Some(y)) => {
            assert(ka[0] == 0 && kb[0] == 0);
            assert(ka.drop_first() =~= seq![x]);
            assert(kb.drop_first() =~= seq![y]);
            assert(ka.drop_first().drop_first() =~= Seq::<i128>::empty());
            assert(kb.drop_first().drop_first() =~= Seq::<i128>::empty());
            assert(!lex_lt(ka.drop_first().drop_first(), kb.drop_first().drop_first()));
            assert(lex_lt(ka.drop_first(), kb.drop_first()) == (x < y));
            assert(lex_lt(ka, kb) == (x < y));
            if ka == kb {
                assert(ka[1] == kb[1]);
            }
        },
        (None, None) => {
            assert(ka.drop_first() =~= Seq::<i128>::empty());
            assert(kb.drop_first() =~= Seq::<i128>::empty());
            assert(!lex_lt(ka.drop_first(), kb.drop_first()));
            assert(!lex_lt(ka, kb));
        },
        (None, Some(y)) => {
            assert(ka[0] == 1 && kb[0] == 0);
            assert(ka != kb);
        },
        (Some(x), None) => {},
    }
}

/// Sorted by path, paths come in component-by-component order, and equal
/// paths keep the order in which they were found.
pub proof fn lemma_path_order(app: &AppState, k: int, l: int)
    requires
        app.sort == SortMode::Path,
        0 <= k < l < app.view_seq().len(),
    ensures
        ({
            let a = path_components(app.candidates@[app.view_seq()[k] as int].path@);
            let b = path_components(app.candidates@[app.view_seq()[l] as int].path@);
            components_lt(a, b) || (a == b && app.view_seq()[k] < app.view_seq()[l])
        }),
{
    lemma_view(app);
    let v = app.view_seq();
    assert(precedes(app.candidates@, app.sort, v[k] as int, v[l] as int));
    lemma_encoding_order(
        path_components(app.candidates@[v[k] as int].path@),
        path_components(app.candidates@[v[l] as int].path@),
    );
}

/// Two states whose candidates differ at most in being selected or deleted
/// show the same rows in the same order: neither flag affects the view.
pub proof fn lemma_view_ignores_flags(a: &AppState, b: &AppState)
    requires
        a.min_size == b.min_size,
        a.filter@ == b.filter@,
        a.sort == b.sort,
        a.candidates@.len() == b.candidates@.len(),
        forall|k: int|
            0 <= k < a.candidates@.len() ==> {
                let x = #[trigger] a.candidates@[k];
                let y = b.candidates@[k];
                x.path == y.path && x.ecosystem == y.ecosystem && x.size == y.size && x.mtime == y.mtime
            },
    ensures
        a.view_seq() == b.view_seq(),
{
    lemma_view(a);
    lemma_view(b);
    let ca = a.candidates@;
    let cb = b.candidates@;
    let f = a.filter_key();
    let s = a.view_seq();
    assert(b.filter_key() == f);
    assert forall|i: int| 0 <= i < ca.len() implies sort_key(#[trigger] ca[i], a.sort) == sort_key(cb[i], a.sort)
        && passes_size(ca[i], a.min_size) == passes_size(cb[i], a.min_size)
        && passes_filter(ca[i], f) == passes_filter(cb[i], f) by {}
    assert(is_view(cb, b.min_size, f, b.sort, s)) by {
        assert forall|k: int| 0 <= k < s.len() implies passes_size(cb[#[trigger] s[k] as int], b.min_size) by {
            assert(s[k] < ca.len());
            assert(sort_key(ca[s[k] as int], a.sort) == sort_key(cb[s[k] as int], a.sort));
        }
        assert forall|k: int| 0 <= k < s.len() implies passes_filter(cb[#[trigger] s[k] as int], f) by {
            assert(s[k] < ca.len());
            assert(sort_key(ca[s[k] as int], a.sort) == sort_key(cb[s[k] as int], a.sort));
        }
        assert forall|i: usize| i < cb.len() && passes_size(cb[i as int], b.min_size) && passes_filter(cb[i as int], f)
            implies #[trigger] s.contains(i) by {
            assert(sort_key(ca[i as int], a.sort) == sort_key(cb[i as int], a.sort));
        }
        assert forall|k: int, l: int| 0 <= k < l < s.len() implies precedes(cb, b.sort, #[trigger] s[k] as int, #[trigger] s[l] as int) by {
            assert(s[k] < ca.len() && s[l] < ca.len());
            assert(sort_key(ca[s[k] as int], a.sort) == sort_key(cb[s[k] as int], a.sort));
            assert(sort_key(ca[s[l] as int], a.sort) == sort_key(cb[s[l] as int], a.sort));
            assert(precedes(ca, a.sort, s[k] as int, s[l] as int));
        }
    }
    lemma_view_unique(cb, b.min_size, f, b.sort, s, b.view_seq());
}

/// A delete request acts only on shown candidates that are not deleted yet.
pub proof fn lemma_targets_live_and_shown(app: &AppState)
    ensures
        app.targets().no_duplicates(),
        forall|k: int|
            0 <= k < app.targets().len() ==> app.shows(#[trigger] app.targets()[k] as int)
                && !app.candidates@[app.targets()[k] as int].deleted,
{
    lemma_view(app);
    let v = app.view_seq();
    let pred = |i: usize| picked(app.candidates@[i as int]);
    lemma_filter_sub(v, pred);
    let t = app.targets();
    if app.picked_in_view().len() > 0 {
        assert forall|k: int| 0 <= k < t.len() implies app.shows(#[trigger] t[k] as int) && !app.candidates@[t[k] as int].deleted by {
            assert(v.filter(pred).contains(t[k]));
            let j = choose|j: int| 0 <= j < v.len() && v[j] == t[k];
            assert(pred(t[k]));
        }
    } else if app.cursor < v.len() {
        assert(v.contains(v[app.cursor as int]));
    }
}

/// What `filter` keeps is in the original, satisfies the predicate, and has
/// no duplicates if the original had none.
proof fn lemma_filter_sub(s: Seq<usize>, pred: spec_fn(usize) -> bool)
    ensures
        forall|k: int| 0 <= k < s.filter(pred).len() ==> s.contains(#[trigger] s.filter(pred)[k]) && pred(s.filter(pred)[k]),
        s.no_duplicates() ==> s.filter(pred).no_duplicates(),
    decreases s.len(),
{
    reveal(Seq::filter);
    if s.len() > 0 {
        lemma_filter_sub(s.drop_last(), pred);
        let f0 = s.drop_last().filter(pred);
        assert forall|k: int| 0 <= k < s.filter(pred).len() implies s.contains(#[trigger] s.filter(pred)[k]) && pred(s.filter(pred)[k]) by {
            if k < f0.len() {
                assert(s.filter(pred)[k] == f0[k]);
                assert(s.drop_last().contains(f0[k]));
                let j = choose|j: int| 0 <= j < s.drop_last().len() && s.drop_last()[j] == f0[k];
                assert(s[j] == f0[k]);
            } else {
                assert(s[s.len() - 1] == s.filter(pred)[k]);
            }
        }
        if s.no_duplicates() {
            assert(s.drop_last().no_duplicates());
            if pred(s.last()) {
                assert forall|a: int, b: int| 0 <= a < s.filter(pred).len() && 0 <= b < s.filter(pred).len() && a != b
                    implies s.filter(pred)[a] != s.filter(pred)[b] by {
                    let fs = s.filter(pred);
                    if a < f0.len() && b < f0.len() {
                        assert(fs[a] == f0[a] && fs[b] == f0[b]);
                    } else {
                        let m = if a < f0.len() { a } else { b };
                        if m < f0.len() {
                            assert(fs[m] == f0[m]);
                            assert(s.drop_last().contains(f0[m]));
                            let j = choose|j: int| 0 <= j < s.drop_last().len() && s.drop_last()[j] == f0[m];
                            assert(s[j] == f0[m]);
                        }
                    }
                }
            }
        }
    }
}

/// After selecting everything in view, a delete request acts on every shown
/// candidate that is not deleted, in display order (when there is one).
pub proof fn lemma_select_all_targets(before: &AppState, after: &AppState)
    requires
        after.same_settings(before),
        after.candidates@.len() == before.candidates@.len(),
        forall|k: int|
            0 <= k < before.candidates@.len() ==> #[trigger] after.candidates@[k] == (if before.shows(k)
                && !before.candidates@[k].deleted {
                with_selected(before.candidates@[k], true)
            } else {
                before.candidates@[k]
            }),
    ensures
        after.view_seq() == before.view_seq(),
        after.picked_in_view() == before.view_seq().filter(|i: usize| !before.candidates@[i as int].deleted),
{
    assert forall|k: int| 0 <= k < before.candidates@.len() implies {
        let x = #[trigger] before.candidates@[k];
        let y = after.candidates@[k];
        x.path == y.path && x.ecosystem == y.ecosystem && x.size == y.size && x.mtime == y.mtime
    } by {}
    lemma_view_ignores_flags(before, after);
    lemma_view(before);
    let v = before.view_seq();
    let p1 = |i: usize| picked(after.candidates@[i as int]);
    let p2 = |i: usize| !before.candidates@[i as int].deleted;
    assert forall|k: int| 0 <= k < v.len() implies p1(#[trigger] v[k]) == p2(v[k]) by {
        assert(v[k] < before.candidates@.len());
        assert(before.shows(v[k] as int));
    }
    lemma_filter_agree(v, p1, p2);
}

/// Filtering by two predicates that agree on every element gives the same.
proof fn lemma_filter_agree(s: Seq<usize>, p: spec_fn(usize) -> bool, q: spec_fn(usize) -> bool)
    requires
        forall|k: int| 0 <= k < s.len() ==> p(#[trigger] s[k]) == q(s[k]),
    ensures
        s.filter(p) == s.filter(q),
    decreases s.len(),
{
    reveal(Seq::filter);
    if s.len() > 0 {
        assert forall|k: int| 0 <= k < s.drop_last().len() implies p(#[trigger] s.drop_last()[k]) == q(s.drop_last()[k]) by {
            assert(s.drop_last()[k] == s[k]);
        }
        lemma_filter_agree(s.drop_last(), p, q);
        assert(p(s[s.len() - 1]) == q(s[s.len() - 1]));
    }
}

/// After the cursor is clamped, a row is focused exactly when some row is
/// shown.
pub proof fn lemma_clamp_focuses(before: &AppState, after: &AppState)
    requires
        after.same_but_cursor(before),
        after.cursor == (if before.view_seq().len() == 0 {
            0
        } else if before.cursor >= before.view_seq().len() {
            (before.view_seq().len() - 1) as usize
        } else {
            before.cursor
        }),
    ensures
        after.focus() is Some <==> before.view_seq().len() > 0,
{
    assert(after.view_seq() == before.view_seq());
}

/// Adding to a wrapped sum wraps the full sum.
pub proof fn lemma_wrap_add(full: int, wrapped: int, x: int)
    requires
        wrapped == wrap64(full),
    ensures
        wrap64(wrapped + x) == wrap64(full + x),
{
    vstd::arithmetic::div_mod::lemma_add_mod_noop(full, x, 0x1_0000_0000_0000_0000);
    vstd::arithmetic::div_mod::lemma_add_mod_noop(wrapped, x, 0x1_0000_0000_0000_0000);
    vstd::arithmetic::div_mod::lemma_mod_twice(full, 0x1_0000_0000_0000_0000);
}

} // verus!
