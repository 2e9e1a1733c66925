//! Parsing of `.env` lines, and the operations that apply parsed lines to an
//! environment table.
use vstd::prelude::*;

use crate::env::Environment;

verus! {

/// The key and value of one line of a `.env` file.
pub type ParsedLine = (String, String);

/// The Unicode `White_Space` property, as `char::is_whitespace` decides it.
pub uninterp spec fn is_space(c: char) -> bool;

/// Relies on `char::is_whitespace`: whether `c` has the Unicode `White_Space`
/// property.
#[verifier::external_body]
fn char_is_space(c: char) -> (r: bool)
    ensures
        r == is_space(c),
{
    c.is_whitespace()
}

/// Relies on `String::push`: appends one character.
#[verifier::external_body]
fn push_char(s: &mut String, c: char)
    ensures
        final(s)@ == old(s)@.push(c),
{
    s.push(c)
}

/// Index of the first occurrence of `c` in `s`, or `s.len()` when there is none.
pub open spec fn first_index(s: Seq<char>, c: char) -> nat
    decreases s.len(),
{
    if s.len() == 0 {
        0
    } else if s[0] == c {
        0
    } else {
        1 + first_index(s.drop_first(), c)
    }
}

/// `s` without its leading whitespace.
pub open spec fn trim_start(s: Seq<char>) -> Seq<char>
    decreases s.len(),
{
    if s.len() > 0 && is_space(s[0]) {
        trim_start(s.drop_first())
    } else {
        s
    }
}

/// `s` without its trailing whitespace.
pub open spec fn trim_end(s: Seq<char>) -> Seq<char>
    decreases s.len(),
{
    if s.len() > 0 && is_space(s.last()) {
        trim_end(s.drop_last())
    } else {
        s
    }
}

/// `s` without its leading and trailing whitespace.
pub open spec fn trim(s: Seq<char>) -> Seq<char> {
    trim_end(trim_start(s))
}

/// The key and value that one line assigns, if it is an assignment.
///
/// A line assigns when it holds a `=` and no `#` comes before the first `=`.
/// The key is what precedes the first `=`; the value is what follows it, up to
/// the first `#` if there is one; both are trimmed.
pub open spec fn line_pair(line: Seq<char>) -> Option<(Seq<char>, Seq<char>)> {
    let eq = first_index(line, '=') as int;
    let hash = first_index(line, '#') as int;
    if eq >= line.len() || hash < eq {
        None
    } else {
        Some((trim(line.subrange(0, eq)), trim(line.subrange(eq + 1, hash))))
    }
}

proof fn lemma_first_index(s: Seq<char>, c: char, i: int)
    requires
        0 <= i <= s.len(),
        i == s.len() || s[i] == c,
        forall|j: int| 0 <= j < i ==> s[j] != c,
    ensures
        first_index(s, c) == i,
    decreases i,
{
    if i > 0 {
        lemma_first_index(s.drop_first(), c, i - 1);
    }
}

proof fn lemma_first_index_bounds(s: Seq<char>, c: char)
    ensures
        0 <= first_index(s, c) <= s.len(),
        first_index(s, c) < s.len() ==> s[first_index(s, c) as int] == c,
        forall|j: int| 0 <= j < first_index(s, c) ==> s[j] != c,
    decreases s.len(),
{
    if s.len() > 0 && s[0] != c {
        lemma_first_index_bounds(s.drop_first(), c);
        assert forall|j: int| 0 <= j < first_index(s, c) implies s[j] != c by {
            if j > 0 {
                assert(s[j] == s.drop_first()[j - 1]);
            }
        }
    }
}

proof fn lemma_trim_start(s: Seq<char>, a: int)
    requires
        0 <= a <= s.len(),
        forall|k: int| 0 <= k < a ==> is_space(s[k]),
        a == s.len() || !is_space(s[a]),
    ensures
        trim_start(s) == s.subrange(a, s.len() as int),
    decreases a,
{
    if a == 0 {
        assert(s.subrange(0, s.len() as int) =~= s);
    } else {
        let t = s.drop_first();
        assert forall|k: int| 0 <= k < a - 1 implies is_space(t[k]) by {
            assert(t[k] == s[k + 1]);
        }
        lemma_trim_start(t, a - 1);
        assert(t.subrange(a - 1, t.len() as int) =~= s.subrange(a, s.len() as int));
    }
}

proof fn lemma_trim_end(s: Seq<char>, b: int)
    requires
        0 <= b <= s.len(),
        forall|k: int| b <= k < s.len() ==> is_space(s[k]),
        b == 0 || !is_space(s[b - 1]),
    ensures
        trim_end(s) == s.subrange(0, b),
    decreases s.len() - b,
{
    if b == s.len() {
        assert(s.subrange(0, b) =~= s);
    } else {
        let t = s.drop_last();
        assert forall|k: int| b <= k < t.len() implies is_space(t[k]) by {
            assert(t[k] == s[k]);
        }
        lemma_trim_end(t, b);
        assert(t.subrange(0, b) =~= s.subrange(0, b));
    }
}

/// The characters of `v` in `lo..hi`, trimmed, as a new string.
fn trimmed_range(v: &Vec<char>, lo: usize, hi: usize) -> (r: String)
    requires
        lo <= hi <= v@.len(),
    ensures
        r@ == trim(v@.subrange(lo as int, hi as int)),
{
    let mut a: usize = lo;
    while a < hi && char_is_space(v[a])
        invariant
            lo <= a <= hi <= v@.len(),
            forall|k: int| lo <= k < a ==> is_space(v@[k]),
        decreases hi - a,
    {
        a = a + 1;
    }
    let mut b: usize = hi;
    while b > a && char_is_space(v[b - 1])
        invariant
            lo <= a <= b <= hi <= v@.len(),
            forall|k: int| b <= k < hi ==> is_space(v@[k]),
        decreases b - a,
    {
        b = b - 1;
    }
    proof {
        let s = v@.subrange(lo as int, hi as int);
        lemma_trim_start(s, a - lo);
        let t = v@.subrange(a as int, hi as int);
        assert(s.subrange(a - lo, s.len() as int) =~= t);
        if b > a {
            assert(!is_space(t[b - a - 1]));
        }
        lemma_trim_end(t, b - a);
        assert(t.subrange(0, b - a) =~= v@.subrange(a as int, b as int));
    }
    let mut r = String::new();
    let mut i: usize = a;
    while i < b
        invariant
            a <= i <= b <= v@.len(),
            r@ =~= v@.subrange(a as int, i as int),
        decreases b - i,
    {
        push_char(&mut r, v[i]);
        i = i + 1;
    }
    r
}

/// The lines of `s`: the pieces between its `\n` characters.
pub open spec fn lines_of(s: Seq<char>) -> Seq<Seq<char>>
    decreases s.len(),
{
    let k = first_index(s, '\n');
    if k >= s.len() {
        seq![s]
    } else {
        seq![s.subrange(0, k as int)] + lines_of(s.subrange(k as int + 1, s.len() as int))
    }
}

/// The pairs that the assignments among `lines` give, in order.
pub open spec fn keep_pairs(lines: Seq<Seq<char>>) -> Seq<(Seq<char>, Seq<char>)>
    decreases lines.len(),
{
    if lines.len() == 0 {
        seq![]
    } else {
        let rest = keep_pairs(lines.drop_first());
        match line_pair(lines[0]) {
            Some(p) => seq![p] + rest,
            None => rest,
        }
    }
}

/// The pairs that the assignment lines of a buffer give, in order.
pub open spec fn parsed_pairs(buf: Seq<char>) -> Seq<(Seq<char>, Seq<char>)> {
    keep_pairs(lines_of(buf))
}

/// A parsed line as the pair of its key and value.
pub open spec fn pair_view(p: ParsedLine) -> (Seq<char>, Seq<char>) {
    (p.0@, p.1@)
}

/// An optional parsed line as an optional pair.
pub open spec fn opt_pair_view(r: Option<ParsedLine>) -> Option<(Seq<char>, Seq<char>)> {
    match r {
        Some(p) => Some(pair_view(p)),
        None => None,
    }
}

/// A sequence of parsed lines as pairs.
pub open spec fn pairs_view(lines: Seq<ParsedLine>) -> Seq<(Seq<char>, Seq<char>)> {
    lines.map_values(|p: ParsedLine| pair_view(p))
}

/// The keys of a sequence of parsed lines, in order.
pub open spec fn keys_view(lines: Seq<ParsedLine>) -> Seq<Seq<char>> {
    lines.map_values(|p: ParsedLine| p.0@)
}

/// A sequence of strings as character sequences.
pub open spec fn strings_view(v: Seq<String>) -> Seq<Seq<char>> {
    v.map_values(|k: String| k@)
}

proof fn lemma_keep_pairs_cons(x: Seq<char>, rest: Seq<Seq<char>>)
    ensures
        keep_pairs(seq![x] + rest) == match line_pair(x) {
            Some(p) => seq![p] + keep_pairs(rest),
            None => keep_pairs(rest),
        },
{
    assert((seq![x] + rest).drop_first() =~= rest);
    assert((seq![x] + rest)[0] == x);
}

/// First index of `c` in `v` within `lo..hi`, or `hi` when there is none.
fn find_in(v: &Vec<char>, lo: usize, hi: usize, c: char) -> (r: usize)
    requires
        lo <= hi <= v@.len(),
    ensures
        r - lo == first_index(v@.subrange(lo as int, hi as int), c),
        lo <= r <= hi,
{
    let mut i: usize = lo;
    while i < hi && v[i] != c
        invariant
            lo <= i <= hi <= v@.len(),
            forall|k: int| lo <= k < i ==> v@[k] != c,
        decreases hi - i,
    {
        i = i + 1;
    }
    proof {
        let s = v@.subrange(lo as int, hi as int);
        lemma_first_index(s, c, i - lo);
    }
    i
}

/// The pair that the characters of `v` in `lo..hi` assign, if they form an
/// assignment line.
fn pair_in(v: &Vec<char>, lo: usize, hi: usize) -> (r: Option<ParsedLine>)
    requires
        lo <= hi <= v@.len(),
    ensures
        opt_pair_view(r) == line_pair(v@.subrange(lo as int, hi as int)),
{
    let ghost s = v@.subrange(lo as int, hi as int);
    let eq = find_in(v, lo, hi, '=');
    let hash = find_in(v, lo, hi, '#');
    if eq >= hi || hash < eq {
        None
    } else {
        proof {
            lemma_first_index_bounds(s, '#');
            lemma_first_index_bounds(s, '=');
            assert(s[eq - lo] == '=');
            if hash < hi {
                assert(s[hash - lo] == '#');
            }
            assert(s.subrange(0, eq - lo) =~= v@.subrange(lo as int, eq as int));
            assert(s.subrange(eq - lo + 1, hash - lo) =~= v@.subrange(eq + 1, hash as int));
        }
        let key = trimmed_range(v, lo, eq);
        let value = trimmed_range(v, eq + 1, hash);
        Some((key, value))
    }
}

/// Parses one line of a `.env` file into its key and value.
///
/// A line without `=`, or with a `#` before its first `=`, gives `None`.
/// Otherwise the key is what precedes the first `=` and the value what follows
/// it, up to the first `#` if there is one, both with surrounding whitespace
/// removed. An empty value is valid.
pub fn parse_line(line: &str) -> (r: Option<ParsedLine>)
    ensures
        opt_pair_view(r) == line_pair(line@),
{
    let v = chars_of(line);
    assert(v@.subrange(0, v@.len() as int) =~= v@);
    pair_in(&v, 0, v.len())
}

/// Parses every line of `buf`, keeping the pairs of the lines that assign, in
/// their order.
pub fn parse_lines(buf: &str) -> (r: Vec<ParsedLine>)
    ensures
        pairs_view(r@) == parsed_pairs(buf@),
{
    let v = chars_of(buf);
    let n = v.len();
    let mut out: Vec<ParsedLine> = Vec::new();
    let mut st: usize = 0;
    let mut i: usize = 0;
    assert(v@.subrange(0, n as int) =~= v@);
    while i < n
        invariant
            n == v@.len(),
            v@ == buf@,
            st <= i <= n,
            forall|k: int| st <= k < i ==> v@[k] != '\n',
            parsed_pairs(buf@) == pairs_view(out@) + keep_pairs(
                lines_of(v@.subrange(st as int, n as int)),
            ),
        decreases n - i,
    {
        if v[i] == '\n' {
            let p = pair_in(&v, st, i);
            proof {
                let t = v@.subrange(st as int, n as int);
                lemma_first_index(t, '\n', i - st);
                assert(t.subrange(0, i - st) =~= v@.subrange(st as int, i as int));
                assert(t.subrange(i - st + 1, t.len() as int) =~= v@.subrange(i + 1, n as int));
                lemma_keep_pairs_cons(
                    v@.subrange(st as int, i as int),
                    lines_of(v@.subrange(i + 1, n as int)),
                );
            }
            let ghost before = out@;
            match p {
                Some(pair) => {
                    out.push(pair);
                    assert(pairs_view(out@) =~= pairs_view(before) + seq![pair_view(pair)]);
                },
                None => {},
            }
            st = i + 1;
        }
        i = i + 1;
    }
    let p = pair_in(&v, st, n);
    proof {
        let t = v@.subrange(st as int, n as int);
        lemma_first_index(t, '\n', n - st);
        lemma_keep_pairs_cons(t, seq![]);
        assert(seq![t] + Seq::<Seq<char>>::empty() =~= seq![t]);
        assert(keep_pairs(Seq::<Seq<char>>::empty()) =~= seq![]);
    }
    let ghost before = out@;
    match p {
        Some(pair) => {
            out.push(pair);
            assert(pairs_view(out@) =~= pairs_view(before) + seq![pair_view(pair)]);
        },
        None => {
            assert(pairs_view(out@) + Seq::<(Seq<char>, Seq<char>)>::empty() =~= pairs_view(out@));
        },
    }
    out
}

/// Appends the keys of `lines` to `keys`, in order.
pub fn only_keys(lines: &[ParsedLine], keys: &mut Vec<String>)
    ensures
        strings_view(final(keys)@) == strings_view(old(keys)@) + keys_view(lines@),
{
    let mut i: usize = 0;
    while i < lines.len()
        invariant
            i <= lines@.len(),
            strings_view(keys@) =~= strings_view(old(keys)@) + keys_view(lines@.subrange(0, i as int)),
        decreases lines@.len() - i,
    {
        let ghost before = keys@;
        keys.push(lines[i].0.clone());
        assert(keys_view(lines@.subrange(0, i + 1)) =~= keys_view(lines@.subrange(0, i as int)).push(lines@[i as int].0@));
        assert(strings_view(keys@) =~= strings_view(before).push(lines@[i as int].0@));
        i = i + 1;
    }
    assert(lines@.subrange(0, lines@.len() as int) =~= lines@);
}

/// The table that setting `pairs` in order gives, starting from `m`.
///
/// Without `overwrite`, a pair whose key the table already holds is skipped.
pub open spec fn set_all(
    m: Map<Seq<char>, Seq<char>>,
    pairs: Seq<(Seq<char>, Seq<char>)>,
    overwrite: bool,
) -> Map<Seq<char>, Seq<char>>
    decreases pairs.len(),
{
    if pairs.len() == 0 {
        m
    } else {
        let (k, v) = pairs.last();
        let before = set_all(m, pairs.drop_last(), overwrite);
        if !overwrite && before.contains_key(k) {
            before
        } else {
            before.insert(k, v)
        }
    }
}

/// The table that removing `keys` gives, starting from `m`.
pub open spec fn remove_all(m: Map<Seq<char>, Seq<char>>, keys: Seq<Seq<char>>) -> Map<
    Seq<char>,
    Seq<char>,
>
    decreases keys.len(),
{
    if keys.len() == 0 {
        m
    } else {
        remove_all(m, keys.drop_last()).remove(keys.last())
    }
}

/// The keys of a sequence of pairs, in order.
pub open spec fn pair_keys(pairs: Seq<(Seq<char>, Seq<char>)>) -> Seq<Seq<char>> {
    pairs.map_values(|p: (Seq<char>, Seq<char>)| p.0)
}

/// A line without `=` assigns nothing.
pub proof fn lemma_no_equals_no_pair(line: Seq<char>)
    requires
        forall|i: int| 0 <= i < line.len() ==> line[i] != '=',
    ensures
        line_pair(line) is None,
{
    lemma_first_index(line, '=', line.len() as int);
}

/// A line whose first `=`, at `eq`, comes before its first `#`, at `hash` (or
/// which has no `#`, with `hash` its length), assigns the trimmed text before
/// `eq` to the trimmed text between `eq` and `hash`.
pub proof fn lemma_assignment_pair(line: Seq<char>, eq: int, hash: int)
    requires
        0 <= eq < line.len(),
        line[eq] == '=',
        forall|j: int| 0 <= j < eq ==> line[j] != '=',
        eq <= hash <= line.len(),
        hash == line.len() || line[hash] == '#',
        forall|j: int| 0 <= j < hash ==> line[j] != '#',
    ensures
        line_pair(line) == Some(
            (trim(line.subrange(0, eq)), trim(line.subrange(eq + 1, hash))),
        ),
{
    lemma_first_index(line, '=', eq);
    lemma_first_index(line, '#', hash);
}

/// A line with a `#` before its first `=` assigns nothing.
pub proof fn lemma_comment_first_no_pair(line: Seq<char>, hash: int)
    requires
        0 <= hash < line.len(),
        line[hash] == '#',
        forall|j: int| 0 <= j < hash ==> line[j] != '=',
    ensures
        line_pair(line) is None,
{
    lemma_first_index_bounds(line, '#');
    lemma_first_index_bounds(line, '=');
    let eq = first_index(line, '=') as int;
    let h = first_index(line, '#') as int;
    if h > hash {
        assert(line[hash] != '#');
    }
    if eq <= hash && eq < line.len() {
        assert(line[eq] == '=');
    }
}

/// Removing `keys` from `m` removes exactly the keys among them.
proof fn lemma_remove_all_is(m: Map<Seq<char>, Seq<char>>, keys: Seq<Seq<char>>)
    ensures
        remove_all(m, keys) == m.remove_keys(keys.to_set()),
    decreases keys.len(),
{
    if keys.len() == 0 {
        assert(m.remove_keys(keys.to_set()) =~= m);
    } else {
        let rest = keys.drop_last();
        lemma_remove_all_is(m, rest);
        assert(keys =~= rest.push(keys.last()));
        rest.lemma_push_to_set_commute(keys.last());
        assert(remove_all(m, keys) =~= m.remove_keys(keys.to_set()));
    }
}

/// Removing keys that a table does not hold leaves it as it is; so removing
/// keys a second time changes nothing.
pub proof fn lemma_unload_absent(m: Map<Seq<char>, Seq<char>>, keys: Seq<Seq<char>>)
    ensures
        (forall|i: int| 0 <= i < keys.len() ==> !m.contains_key(#[trigger] keys[i]))
            ==> remove_all(m, keys) == m,
        remove_all(remove_all(m, keys), keys) == remove_all(m, keys),
{
    lemma_remove_all_is(m, keys);
    lemma_remove_all_is(remove_all(m, keys), keys);
    if forall|i: int| 0 <= i < keys.len() ==> !m.contains_key(#[trigger] keys[i]) {
        assert(m.remove_keys(keys.to_set()) =~= m);
    }
    assert(remove_all(remove_all(m, keys), keys) =~= remove_all(m, keys));
}

/// Setting `pairs` leaves a key that none of them has as it was.
proof fn lemma_set_all_other(
    m: Map<Seq<char>, Seq<char>>,
    pairs: Seq<(Seq<char>, Seq<char>)>,
    overwrite: bool,
    k: Seq<char>,
)
    requires
        forall|i: int| 0 <= i < pairs.len() ==> pairs[i].0 != k,
    ensures
        set_all(m, pairs, overwrite).contains_key(k) == m.contains_key(k),
        m.contains_key(k) ==> set_all(m, pairs, overwrite)[k] == m[k],
    decreases pairs.len(),
{
    if pairs.len() > 0 {
        lemma_set_all_other(m, pairs.drop_last(), overwrite, k);
        assert(pairs.last().0 != k);
    }
}

/// Setting `pairs` and then removing their keys leaves the table as removing
/// those keys alone would: none of the keys is held, and every other entry is
/// as it was before.
pub proof fn lemma_set_then_unload(
    m: Map<Seq<char>, Seq<char>>,
    pairs: Seq<(Seq<char>, Seq<char>)>,
    overwrite: bool,
)
    ensures
        remove_all(set_all(m, pairs, overwrite), pair_keys(pairs)) == remove_all(
            m,
            pair_keys(pairs),
        ),
        forall|i: int|
            0 <= i < pairs.len() ==> !remove_all(
                set_all(m, pairs, overwrite),
                pair_keys(pairs),
            ).contains_key(#[trigger] pairs[i].0),
{
    let keys = pair_keys(pairs);
    let after = set_all(m, pairs, overwrite);
    lemma_remove_all_is(after, keys);
    lemma_remove_all_is(m, keys);
    assert forall|k: Seq<char>| !keys.to_set().contains(k) implies (#[trigger] after.contains_key(k)
        == m.contains_key(k) && (m.contains_key(k) ==> after[k] == m[k])) by {
        assert forall|i: int| 0 <= i < pairs.len() implies pairs[i].0 != k by {
            assert(keys[i] == pairs[i].0);
        }
        lemma_set_all_other(m, pairs, overwrite, k);
    }
    assert(after.remove_keys(keys.to_set()) =~= m.remove_keys(keys.to_set()));
    assert forall|i: int| 0 <= i < pairs.len() implies !remove_all(after, keys).contains_key(
        #[trigger] pairs[i].0,
    ) by {
        assert(keys[i] == pairs[i].0);
        assert(keys.to_set().contains(keys[i]));
    }
}

/// Setting one pair: where it is set, the table then maps its key to its
/// value, and a key that was absent adds one entry; without `overwrite`, a key
/// already held keeps its value.
pub proof fn lemma_set_one(
    m: Map<Seq<char>, Seq<char>>,
    k: Seq<char>,
    v: Seq<char>,
    overwrite: bool,
)
    requires
        m.dom().finite(),
    ensures
        overwrite || !m.contains_key(k) ==> set_all(m, seq![(k, v)], overwrite) == m.insert(k, v),
        overwrite || !m.contains_key(k) ==> set_all(m, seq![(k, v)], overwrite)[k] == v,
        !m.contains_key(k) ==> set_all(m, seq![(k, v)], overwrite).len() == m.len() + 1,
        !overwrite && m.contains_key(k) ==> set_all(m, seq![(k, v)], overwrite) == m,
{
    let pairs = seq![(k, v)];
    assert(pairs.drop_last() =~= Seq::<(Seq<char>, Seq<char>)>::empty());
    assert(pairs.last() == (k, v));
    assert(set_all(m, pairs.drop_last(), overwrite) == m);
    if !m.contains_key(k) {
        assert(m.insert(k, v).dom() =~= m.dom().insert(k));
    }
}

/// Sets each of `lines` in `env`, in order.
///
/// Without `overwrite`, a line whose key `env` already holds is skipped, so
/// the first of two lines with one key wins; with it, every line is set and
/// the last wins.
pub fn set_variables(env: &mut Environment, lines: &[ParsedLine], overwrite: bool)
    requires
        old(env).wf(),
    ensures
        final(env).wf(),
        final(env)@ == set_all(old(env)@, pairs_view(lines@), overwrite),
{
    let mut i: usize = 0;
    while i < lines.len()
        invariant
            i <= lines@.len(),
            env.wf(),
            env@ == set_all(old(env)@, pairs_view(lines@.subrange(0, i as int)), overwrite),
        decreases lines@.len() - i,
    {
        proof {
            assert(pairs_view(lines@.subrange(0, i + 1)).drop_last() =~= pairs_view(
                lines@.subrange(0, i as int),
            ));
        }
        let (key, value) = &lines[i];
        if overwrite || !env.contains_key(key.as_str()) {
            env.set(key.as_str(), value.as_str());
        }
        i = i + 1;
    }
    assert(lines@.subrange(0, lines@.len() as int) =~= lines@);
}

/// Removes each of `keys` from `env`; a key that `env` does not hold is no
/// error.
pub fn unload(env: &mut Environment, keys: &[&str])
    requires
        old(env).wf(),
    ensures
        final(env).wf(),
        final(env)@ == remove_all(old(env)@, keys@.map_values(|k: &str| k@)),
{
    let mut i: usize = 0;
    while i < keys.len()
        invariant
            i <= keys@.len(),
            env.wf(),
            env@ == remove_all(old(env)@, keys@.subrange(0, i as int).map_values(|k: &str| k@)),
        decreases keys@.len() - i,
    {
        proof {
            assert(keys@.subrange(0, i + 1).map_values(|k: &str| k@).drop_last()
                =~= keys@.subrange(0, i as int).map_values(|k: &str| k@));
        }
        env.remove(keys[i]);
        i = i + 1;
    }
    assert(keys@.subrange(0, keys@.len() as int) =~= keys@);
}

/// Removes the key of each of `lines` from `env`.
pub fn unload_from_parsed_lines(env: &mut Environment, lines: &[ParsedLine])
    requires
        old(env).wf(),
    ensures
        final(env).wf(),
        final(env)@ == remove_all(old(env)@, keys_view(lines@)),
{
    let mut i: usize = 0;
    while i < lines.len()
        invariant
            i <= lines@.len(),
            env.wf(),
            env@ == remove_all(old(env)@, keys_view(lines@.subrange(0, i as int))),
        decreases lines@.len() - i,
    {
        proof {
            assert(keys_view(lines@.subrange(0, i + 1)).drop_last() =~= keys_view(
                lines@.subrange(0, i as int),
            ));
        }
        env.remove(lines[i].0.as_str());
        i = i + 1;
    }
    assert(lines@.subrange(0, lines@.len() as int) =~= lines@);
}

/// The characters of `s`, in order.
fn chars_of(s: &str) -> (r: Vec<char>)
    ensures
        r@ == s@,
{
    let mut r: Vec<char> = Vec::new();
    for c in it: s.chars()
        invariant
            it.seq() == s@,
            r@ == it.seq().subrange(0, it.index() as int),
    {
        r.push(c);
    }
    r
}

} // verus!
