//! Character-sequence utilities shared by the path and report modules:
//! splitting on a separator, joining with a separator, and a lexicographic
//! order on strings.

use vstd::prelude::*;

verus! {

/// Splitting a character sequence on a separator, with the semantics of
/// `str::split`: the empty sequence yields one empty segment, and a trailing
/// separator yields a trailing empty segment.
pub open spec fn split_on<T>(s: Seq<T>, sep: T) -> Seq<Seq<T>>
    decreases s.len(),
{
    if s.len() == 0 {
        seq![Seq::<T>::empty()]
    } else if s[0] == sep {
        seq![Seq::<T>::empty()] + split_on(s.drop_first(), sep)
    } else {
        let rest = split_on(s.drop_first(), sep);
        seq![seq![s[0]] + rest[0]] + rest.drop_first()
    }
}

pub proof fn lemma_split_on_len<T>(s: Seq<T>, sep: T)
    ensures
        split_on(s, sep).len() >= 1,
    decreases s.len(),
{
    if s.len() == 0 {
    } else {
        lemma_split_on_len(s.drop_first(), sep);
    }
}

/// If `s` has no separator before position `j`, and `j` is either the first
/// separator or the end, then the split starts with `s.take(j)`.
pub proof fn lemma_split_on_first<T>(s: Seq<T>, sep: T, j: int)
    requires
        0 <= j <= s.len(),
        forall|k: int| 0 <= k < j ==> s[k] != sep,
        j == s.len() || s[j] == sep,
    ensures
        j == s.len() ==> split_on(s, sep) =~= seq![s],
        j < s.len() ==> split_on(s, sep) =~= seq![s.take(j)] + split_on(
            s.skip(j + 1),
            sep,
        ),
    decreases j,
{
    lemma_split_on_len(s, sep);
    if j == 0 {
        if s.len() == 0 {
            assert(s =~= Seq::<T>::empty());
            assert(split_on(s, sep) =~= seq![s]);
        } else {
            assert(s[0] == sep);
            assert(s.drop_first() =~= s.skip(1));
            assert(s.take(0) =~= Seq::<T>::empty());
            assert(split_on(s, sep) =~= seq![s.take(0)] + split_on(s.skip(1), sep));
        }
    } else {
        assert(s.len() > 0 && s[0] != sep);
        let t = s.drop_first();
        lemma_split_on_first(t, sep, j - 1);
        lemma_split_on_len(t, sep);
        let rest = split_on(t, sep);
        if j == s.len() {
            assert(rest =~= seq![t]);
            assert(seq![s[0]] + t =~= s);
            assert(split_on(s, sep) =~= seq![s]);
        } else {
            assert(rest =~= seq![t.take(j - 1)] + split_on(t.skip(j), sep));
            assert(seq![s[0]] + t.take(j - 1) =~= s.take(j));
            assert(t.skip(j) =~= s.skip(j + 1));
            assert(rest.drop_first() =~= split_on(s.skip(j + 1), sep));
            assert(split_on(s, sep) =~= seq![s.take(j)] + split_on(s.skip(j + 1), sep));
        }
    }
}

/// Splits `s` on the character `sep`, as `str::split` does.
pub fn split_str(s: &str, sep: char) -> (r: Vec<String>)
    ensures
        r.deep_view() == split_on(s@, sep),
{
    let len: usize = s.unicode_len();
    let mut r: Vec<String> = Vec::new();
    let mut st: usize = 0;
    let mut i: usize = 0;
    proof {
        assert(s@.skip(0) =~= s@);
    }
    while i < len
        invariant
            0 <= st <= i <= len,
            len == s@.len(),
            forall|k: int| st <= k < i ==> s@[k] != sep,
            r.deep_view() + split_on(s@.skip(st as int), sep) =~= split_on(s@, sep),
        decreases len - i,
    {
        if s.get_char(i) == sep {
            let seg = s.substring_char(st, i);
            r.push(String::from_str(seg));
            proof {
                let tail = s@.skip(st as int);
                lemma_split_on_first(tail, sep, i - st);
                assert(tail.take(i - st) =~= s@.subrange(st as int, i as int));
                assert(tail.skip(i - st + 1) =~= s@.skip(i + 1));
            }
            st = i + 1;
        }
        i += 1;
    }
    let seg = s.substring_char(st, len);
    r.push(String::from_str(seg));
    proof {
        let tail = s@.skip(st as int);
        lemma_split_on_first(tail, sep, len - st);
        assert(tail.take(len - st) =~= s@.subrange(st as int, len as int));
        assert(tail =~= s@.subrange(st as int, len as int));
        assert(r.deep_view() =~= split_on(s@, sep));
    }
    r
}

/// Joining a sequence of parts with a separator between consecutive parts.
pub open spec fn join_with(parts: Seq<Seq<char>>, sep: Seq<char>) -> Seq<char>
    decreases parts.len(),
{
    if parts.len() == 0 {
        Seq::<char>::empty()
    } else if parts.len() == 1 {
        parts[0]
    } else {
        parts[0] + sep + join_with(parts.drop_first(), sep)
    }
}

pub proof fn lemma_join_with_push(parts: Seq<Seq<char>>, sep: Seq<char>, p: Seq<char>)
    ensures
        parts.len() == 0 ==> join_with(parts.push(p), sep) == p,
        parts.len() > 0 ==> join_with(parts.push(p), sep) == join_with(parts, sep) + sep + p,
    decreases parts.len(),
{
    let whole = parts.push(p);
    if parts.len() == 0 {
        assert(whole.len() == 1);
        assert(whole[0] == p);
    } else if parts.len() == 1 {
        assert(whole.drop_first() =~= seq![p]);
        assert(join_with(seq![p], sep) == p);
        assert(join_with(whole, sep) == whole[0] + sep + join_with(whole.drop_first(), sep));
        assert(join_with(whole, sep) == parts[0] + sep + p);
    } else {
        lemma_join_with_push(parts.drop_first(), sep, p);
        assert(whole.drop_first() =~= parts.drop_first().push(p));
        assert(join_with(whole, sep) == whole[0] + sep + join_with(whole.drop_first(), sep));
        assert(whole[0] + sep + (join_with(parts.drop_first(), sep) + sep + p) =~= (parts[0] + sep
            + join_with(parts.drop_first(), sep)) + sep + p);
    }
}

/// Joins the parts with the separator, as `[T]::join` does.
pub fn join_strs(parts: &Vec<String>, sep: &str) -> (r: String)
    ensures
        r@ == join_with(parts.deep_view(), sep@),
{
    let mut r = String::new();
    let mut i: usize = 0;
    proof {
        assert(parts.deep_view().take(0) =~= Seq::<Seq<char>>::empty());
    }
    while i < parts.len()
        invariant
            0 <= i <= parts.len(),
            parts.deep_view().len() == parts.len(),
            r@ == join_with(parts.deep_view().take(i as int), sep@),
        decreases parts.len() - i,
    {
        if i > 0 {
            r.append(sep);
        }
        r.append(parts[i].as_str());
        proof {
            lemma_join_with_push(parts.deep_view().take(i as int), sep@, parts.deep_view()[i as int]);
            assert(parts.deep_view().take(i + 1) =~= parts.deep_view().take(i as int).push(
                parts.deep_view()[i as int],
            ));
        }
        i += 1;
    }
    proof {
        assert(parts.deep_view().take(parts.len() as int) =~= parts.deep_view());
    }
    r
}

/// Lexicographic order on character sequences by scalar value, the order in
/// which `str` compares in Rust.
pub open spec fn str_le(a: Seq<char>, b: Seq<char>) -> bool
    decreases a.len(),
{
    if a.len() == 0 {
        true
    } else if b.len() == 0 {
        false
    } else if a[0] == b[0] {
        str_le(a.drop_first(), b.drop_first())
    } else {
        (a[0] as int) < (b[0] as int)
    }
}

pub proof fn lemma_str_le_total(a: Seq<char>, b: Seq<char>)
    ensures
        str_le(a, b) || str_le(b, a),
        str_le(a, b) && str_le(b, a) ==> a == b,
    decreases a.len(),
{
    if a.len() == 0 {
        if b.len() == 0 {
            assert(a =~= b);
        }
    } else if b.len() == 0 {
    } else if a[0] == b[0] {
        lemma_str_le_total(a.drop_first(), b.drop_first());
        if str_le(a, b) && str_le(b, a) {
            assert(a.drop_first() == b.drop_first());
            assert(a =~= seq![a[0]] + a.drop_first());
            assert(b =~= seq![b[0]] + b.drop_first());
        }
    } else {
        assert((a[0] as int) != (b[0] as int));
    }
}

pub proof fn lemma_str_le_trans(a: Seq<char>, b: Seq<char>, c: Seq<char>)
    requires
        str_le(a, b),
        str_le(b, c),
    ensures
        str_le(a, c),
    decreases a.len(),
{
    if a.len() == 0 || b.len() == 0 || c.len() == 0 {
    } else if a[0] == b[0] && b[0] == c[0] {
        lemma_str_le_trans(a.drop_first(), b.drop_first(), c.drop_first());
    }
}

/// Decides `str_le` on two strings.
pub fn str_le_exec(a: &str, b: &str) -> (r: bool)
    ensures
        r == str_le(a@, b@),
{
    let alen: usize = a.unicode_len();
    let blen: usize = b.unicode_len();
    let mut i: usize = 0;
    proof {
        assert(a@.skip(0) =~= a@);
        assert(b@.skip(0) =~= b@);
    }
    loop
        invariant
            0 <= i <= alen,
            i <= blen,
            alen == a@.len(),
            blen == b@.len(),
            str_le(a@, b@) == str_le(a@.skip(i as int), b@.skip(i as int)),
            str_le(b@, a@) == str_le(b@.skip(i as int), a@.skip(i as int)),
        decreases alen - i,
    {
        if i == alen {
            return true;
        }
        if i == blen {
            return false;
        }
        let ca = a.get_char(i);
        let cb = b.get_char(i);
        if ca != cb {
            return (ca as u32) < (cb as u32);
        }
        proof {
            assert(a@.skip(i as int).drop_first() =~= a@.skip(i + 1));
            assert(b@.skip(i as int).drop_first() =~= b@.skip(i + 1));
        }
        i += 1;
    }
}

/// The order `str_le`, as the closure that the sortedness predicate takes.
pub open spec fn str_leq() -> spec_fn(Seq<char>, Seq<char>) -> bool {
    |x: Seq<char>, y: Seq<char>| str_le(x, y)
}

/// Inserting `s` at its insertion point keeps a sequence sorted.
pub proof fn lemma_sorted_insert(r: Seq<Seq<char>>, s: Seq<char>, j: int)
    requires
        vstd::relations::sorted_by(r, str_leq()),
        0 <= j <= r.len(),
        forall|k: int| 0 <= k < j ==> str_le(#[trigger] r[k], s),
        j < r.len() ==> !str_le(r[j], s),
    ensures
        vstd::relations::sorted_by(r.insert(j, s), str_leq()),
{
    let t = r.insert(j, s);
    assert forall|p: int, q: int| 0 <= p < q < t.len() implies str_leq()(t[p], t[q]) by {
        if q < j {
            assert(t[p] == r[p] && t[q] == r[q]);
        } else if p > j {
            assert(t[p] == r[p - 1] && t[q] == r[q - 1]);
        } else if p < j && q == j {
            assert(t[p] == r[p] && t[q] == s);
        } else if p == j {
            assert(t[p] == s && t[q] == r[q - 1]);
            lemma_str_le_total(r[j], s);
            assert(str_le(s, r[j]));
            if q - 1 > j {
                assert(str_leq()(r[j], r[q - 1]));
                lemma_str_le_trans(s, r[j], r[q - 1]);
            }
        } else {
            assert(p < j && q > j);
            assert(t[p] == r[p] && t[q] == r[q - 1]);
        }
    }
}

pub proof fn lemma_insert_to_multiset(r: Seq<Seq<char>>, s: Seq<char>, j: int)
    requires
        0 <= j <= r.len(),
    ensures
        r.insert(j, s).to_multiset() == r.to_multiset().insert(s),
{
    broadcast use vstd::seq_lib::group_to_multiset_ensures;

    let t = r.insert(j, s);
    assert(t[j] == s);
    assert(t.remove(j) =~= r);
    assert(t.remove(j).to_multiset() =~= t.to_multiset().remove(s));
    assert(t.contains(s));
    assert(t.to_multiset().count(s) > 0);
    assert(t.to_multiset() =~= t.to_multiset().remove(s).insert(s));
}

/// Returns the first position whose element is not `str_le`-below `s`; this is
/// where `s` is inserted to keep the vector sorted.
fn insert_pos(r: &Vec<String>, s: &String) -> (j: usize)
    ensures
        j <= r.len(),
        forall|k: int| 0 <= k < j ==> str_le(#[trigger] r.deep_view()[k], s@),
        j < r.len() ==> !str_le(r.deep_view()[j as int], s@),
{
    let mut j: usize = 0;
    loop
        invariant
            0 <= j <= r.len(),
            r.deep_view().len() == r.len(),
            forall|k: int| 0 <= k < j ==> str_le(#[trigger] r.deep_view()[k], s@),
        decreases r.len() - j,
    {
        if j == r.len() {
            return j;
        }
        if !str_le_exec(r[j].as_str(), s.as_str()) {
            return j;
        }
        j += 1;
    }
}

/// Sorts the strings into `str_le` order; the result is a permutation of the
/// input.
pub fn sort_strings(v: &Vec<String>) -> (r: Vec<String>)
    ensures
        vstd::relations::sorted_by(r.deep_view(), str_leq()),
        r.deep_view().to_multiset() == v.deep_view().to_multiset(),
{
    broadcast use vstd::seq_lib::group_to_multiset_ensures;

    let mut r: Vec<String> = Vec::new();
    let mut i: usize = 0;
    proof {
        assert(v.deep_view().take(0) =~= Seq::<Seq<char>>::empty());
        assert(r.deep_view() =~= Seq::<Seq<char>>::empty());
        assert(r.deep_view().to_multiset() =~= v.deep_view().take(0).to_multiset());
    }
    while i < v.len()
        invariant
            0 <= i <= v.len(),
            v.deep_view().len() == v.len(),
            r.deep_view().len() == r.len(),
            vstd::relations::sorted_by(r.deep_view(), str_leq()),
            r.deep_view().to_multiset() == v.deep_view().take(i as int).to_multiset(),
        decreases v.len() - i,
    {
        let s = v[i].clone();
        let j = insert_pos(&r, &s);
        proof {
            lemma_sorted_insert(r.deep_view(), s@, j as int);
            lemma_insert_to_multiset(r.deep_view(), s@, j as int);
            assert(v.deep_view().take(i + 1) =~= v.deep_view().take(i as int).push(
                v.deep_view()[i as int],
            ));
        }
        let ghost old_deep = r.deep_view();
        r.insert(j, s);
        proof {
            assert(r.deep_view() =~= old_deep.insert(j as int, v.deep_view()[i as int]));
            broadcast use vstd::seq_lib::group_to_multiset_ensures;

            assert(v.deep_view().take(i + 1).to_multiset() =~= v.deep_view().take(
                i as int,
            ).to_multiset().insert(v.deep_view()[i as int]));
        }
        i += 1;
    }
    proof {
        assert(v.deep_view().take(v.len() as int) =~= v.deep_view());
    }
    r
}

/// Character-for-character string equality.
pub fn eq_str(a: &str, b: &str) -> (r: bool)
    ensures
        r == (a@ == b@),
{
    let alen: usize = a.unicode_len();
    let blen: usize = b.unicode_len();
    if alen != blen {
        return false;
    }
    let mut i: usize = 0;
    while i < alen
        invariant
            0 <= i <= alen,
            alen == a@.len(),
            alen == b@.len(),
            forall|k: int| 0 <= k < i ==> a@[k] == b@[k],
        decreases alen - i,
    {
        if a.get_char(i) != b.get_char(i) {
            return false;
        }
        i += 1;
    }
    proof {
        assert(a@ =~= b@);
    }
    true
}

/// Whether `s` begins with the prefix `p`.
pub fn starts_with_str(s: &str, p: &str) -> (r: bool)
    ensures
        r == (s@.len() >= p@.len() && s@.take(p@.len() as int) == p@),
{
    let slen: usize = s.unicode_len();
    let plen: usize = p.unicode_len();
    if slen < plen {
        return false;
    }
    let mut i: usize = 0;
    while i < plen
        invariant
            0 <= i <= plen,
            plen <= slen,
            slen == s@.len(),
            plen == p@.len(),
            forall|k: int| 0 <= k < i ==> s@[k] == p@[k],
        decreases plen - i,
    {
        if s.get_char(i) != p.get_char(i) {
            proof {
                if s@.take(p@.len() as int) == p@ {
                    assert(s@.take(p@.len() as int)[i as int] == p@[i as int]);
                }
            }
            return false;
        }
        i += 1;
    }
    proof {
        assert(s@.take(p@.len() as int) =~= p@);
    }
    true
}

/// The characters `char::is_whitespace` recognises, stripped from
/// loader-configuration lines as `str::trim` strips them.
pub open spec fn is_space(c: char) -> bool {
    ||| c == ' '
    ||| c == '\t'
    ||| c == '\n'
    ||| c == '\r'
    ||| c == '\u{b}'
    ||| c == '\u{c}'
    ||| c == '\u{85}'
    ||| c == '\u{a0}'
    ||| c == '\u{1680}'
    ||| ('\u{2000}' <= c && c <= '\u{200a}')
    ||| c == '\u{2028}'
    ||| c == '\u{2029}'
    ||| c == '\u{202f}'
    ||| c == '\u{205f}'
    ||| c == '\u{3000}'
}

/// `s` with leading whitespace removed.
pub open spec fn trim_front(s: Seq<char>) -> Seq<char>
    decreases s.len(),
{
    if s.len() > 0 && is_space(s[0]) {
        trim_front(s.drop_first())
    } else {
        s
    }
}

/// `s` with trailing whitespace removed.
pub open spec fn trim_back(s: Seq<char>) -> Seq<char>
    decreases s.len(),
{
    if s.len() > 0 && is_space(s[s.len() - 1]) {
        trim_back(s.drop_last())
    } else {
        s
    }
}

/// `s` with leading and trailing whitespace removed.
pub open spec fn trim_spec(s: Seq<char>) -> Seq<char> {
    trim_back(trim_front(s))
}

pub proof fn lemma_trim_front_skip(s: Seq<char>, i: int)
    requires
        0 <= i <= s.len(),
        forall|k: int| 0 <= k < i ==> is_space(s[k]),
        i == s.len() || !is_space(s[i]),
    ensures
        trim_front(s) =~= s.skip(i),
    decreases i,
{
    if i == 0 {
        assert(s.skip(0) =~= s);
    } else {
        assert(is_space(s[0]));
        lemma_trim_front_skip(s.drop_first(), i - 1);
        assert(s.drop_first().skip(i - 1) =~= s.skip(i));
    }
}

pub proof fn lemma_trim_back_take(s: Seq<char>, i: int)
    requires
        0 <= i <= s.len(),
        forall|k: int| i <= k < s.len() ==> is_space(s[k]),
        i == 0 || !is_space(s[i - 1]),
    ensures
        trim_back(s) =~= s.take(i),
    decreases s.len() - i,
{
    if i == s.len() {
        if s.len() > 0 {
            assert(!is_space(s[s.len() - 1]));
        }
        assert(s.take(i) =~= s);
    } else {
        assert(is_space(s[s.len() - 1]));
        lemma_trim_back_take(s.drop_last(), i);
        assert(s.drop_last().take(i) =~= s.take(i));
    }
}

/// Strips leading and trailing whitespace, as `str::trim` does on the ASCII
/// whitespace characters.
pub fn trim_str(s: &str) -> (r: String)
    ensures
        r@ == trim_spec(s@),
{
    let len: usize = s.unicode_len();
    let mut a: usize = 0;
    while a < len && is_space_exec(s.get_char(a))
        invariant
            0 <= a <= len,
            len == s@.len(),
            forall|k: int| 0 <= k < a ==> is_space(s@[k]),
        decreases len - a,
    {
        a += 1;
    }
    let mut b: usize = len;
    while b > a && is_space_exec(s.get_char(b - 1))
        invariant
            a <= b <= len,
            len == s@.len(),
            forall|k: int| 0 <= k < a ==> is_space(s@[k]),
            a == len || !is_space(s@[a as int]),
            forall|k: int| b <= k < len ==> is_space(s@[k]),
        decreases b,
    {
        b -= 1;
    }
    let r = String::from_str(s.substring_char(a, b));
    proof {
        lemma_trim_front_skip(s@, a as int);
        let t = s@.skip(a as int);
        lemma_trim_back_take(t, b - a);
        assert(t.take(b - a) =~= s@.subrange(a as int, b as int));
    }
    r
}

fn is_space_exec(c: char) -> (r: bool)
    ensures
        r == is_space(c),
{
    c == ' ' || c == '\t' || c == '\n' || c == '\r' || c == '\u{b}' || c == '\u{c}' || c
        == '\u{85}' || c == '\u{a0}' || c == '\u{1680}' || ('\u{2000}' <= c && c
        <= '\u{200a}') || c == '\u{2028}' || c == '\u{2029}' || c == '\u{202f}' || c
        == '\u{205f}' || c == '\u{3000}'
}

/// `s` with every occurrence of `pat` replaced by `rep`, scanning left to
/// right; occurrences do not overlap and the replacement text is not rescanned.
pub open spec fn replace_all(s: Seq<char>, pat: Seq<char>, rep: Seq<char>) -> Seq<char>
    decreases s.len(),
    when pat.len() > 0
{
    if s.len() < pat.len() {
        s
    } else if s.take(pat.len() as int) == pat {
        rep + replace_all(s.skip(pat.len() as int), pat, rep)
    } else {
        seq![s[0]] + replace_all(s.drop_first(), pat, rep)
    }
}

/// Whether `s@` matches `pat@` starting at position `i`.
fn matches_at(s: &str, slen: usize, i: usize, pat: &str, plen: usize) -> (r: bool)
    requires
        slen == s@.len(),
        plen == p_len_spec(pat@),
        plen == pat@.len(),
        i <= slen,
    ensures
        r == (i + pat@.len() <= s@.len() && s@.subrange(i as int, i + pat@.len()) == pat@),
{
    if slen - i < plen {
        proof {
            assert(i + pat@.len() > s@.len());
        }
        return false;
    }
    let mut k: usize = 0;
    while k < plen
        invariant
            0 <= k <= plen,
            plen == pat@.len(),
            slen == s@.len(),
            i + plen <= slen,
            forall|t: int| 0 <= t < k ==> s@[i + t] == pat@[t],
        decreases plen - k,
    {
        if s.get_char(i + k) != pat.get_char(k) {
            proof {
                if s@.subrange(i as int, i + pat@.len()) == pat@ {
                    assert(s@.subrange(i as int, i + pat@.len())[k as int] == pat@[k as int]);
                }
            }
            return false;
        }
        k += 1;
    }
    proof {
        assert(s@.subrange(i as int, i + pat@.len()) =~= pat@);
    }
    true
}

/// Helper spec alias so `matches_at` can take the pattern length once.
pub open spec fn p_len_spec(p: Seq<char>) -> int {
    p.len() as int
}

/// Replaces every occurrence of `pat` in `s` by `rep`, as `str::replace` does.
pub fn replace_str(s: &str, pat: &str, rep: &str) -> (r: String)
    requires
        pat@.len() > 0,
    ensures
        r@ == replace_all(s@, pat@, rep@),
{
    let slen: usize = s.unicode_len();
    let plen: usize = pat.unicode_len();
    let mut r = String::new();
    let mut i: usize = 0;
    proof {
        assert(s@.skip(0) =~= s@);
    }
    while i < slen
        invariant
            0 <= i <= slen,
            slen == s@.len(),
            plen == pat@.len(),
            pat@.len() > 0,
            r@ + replace_all(s@.skip(i as int), pat@, rep@) == replace_all(s@, pat@, rep@),
        decreases slen - i,
    {
        let ghost tail = s@.skip(i as int);
        if matches_at(s, slen, i, pat, plen) {
            r.append(rep);
            proof {
                assert(tail.len() >= pat@.len());
                assert(tail.take(pat@.len() as int) =~= s@.subrange(i as int, i + pat@.len()));
                assert(tail.skip(pat@.len() as int) =~= s@.skip(i + plen));
            }
            i += plen;
        } else {
            let c = s.substring_char(i, i + 1);
            r.append(c);
            proof {
                if tail.len() >= pat@.len() {
                    assert(tail.take(pat@.len() as int) =~= s@.subrange(i as int, i + pat@.len()));
                    assert(tail.take(pat@.len() as int) != pat@);
                }
                assert(seq![tail[0]] =~= s@.subrange(i as int, i + 1));
                assert(tail.drop_first() =~= s@.skip(i + 1));
            }
            i += 1;
        }
    }
    proof {
        assert(s@.skip(slen as int) =~= Seq::<char>::empty());
        assert(replace_all(Seq::<char>::empty(), pat@, rep@) =~= Seq::<char>::empty());
        assert(r@ =~= r@ + Seq::<char>::empty());
    }
    r
}

/// Splits a byte sequence on the separator byte, as the loader splits the
/// raw value of `LD_LIBRARY_PATH`.
pub fn split_bytes(v: &Vec<u8>, sep: u8) -> (r: Vec<Vec<u8>>)
    ensures
        r.deep_view() == split_on(v@, sep),
{
    let len: usize = v.len();
    let mut r: Vec<Vec<u8>> = Vec::new();
    let mut st: usize = 0;
    let mut i: usize = 0;
    proof {
        assert(v@.skip(0) =~= v@);
    }
    while i < len
        invariant
            0 <= st <= i <= len,
            len == v@.len(),
            forall|k: int| st <= k < i ==> v@[k] != sep,
            r.deep_view() + split_on(v@.skip(st as int), sep) =~= split_on(v@, sep),
        decreases len - i,
    {
        if v[i] == sep {
            let mut seg: Vec<u8> = Vec::new();
            let mut j: usize = st;
            while j < i
                invariant
                    st <= j <= i <= len,
                    len == v@.len(),
                    seg@ =~= v@.subrange(st as int, j as int),
                decreases i - j,
            {
                seg.push(v[j]);
                proof {
                    assert(seg@ =~= v@.subrange(st as int, j + 1));
                }
                j += 1;
            }
            let ghost predeep = r.deep_view();
            let ghost segv = seg@;
            r.push(seg);
            proof {
                assert(r.deep_view() =~~= predeep.push(segv));
                let tail = v@.skip(st as int);
                lemma_split_on_first(tail, sep, i - st);
                assert(tail.take(i - st) =~= v@.subrange(st as int, i as int));
                assert(tail.skip(i - st + 1) =~= v@.skip(i + 1));
            }
            st = i + 1;
        }
        i += 1;
    }
    let mut seg: Vec<u8> = Vec::new();
    let mut j: usize = st;
    while j < len
        invariant
            st <= j <= len,
            len == v@.len(),
            seg@ =~= v@.subrange(st as int, j as int),
        decreases len - j,
    {
        seg.push(v[j]);
        proof {
            assert(seg@ =~= v@.subrange(st as int, j + 1));
        }
        j += 1;
    }
    let ghost predeep = r.deep_view();
    let ghost segv = seg@;
    r.push(seg);
    proof {
        assert(r.deep_view() =~~= predeep.push(segv));
        let tail = v@.skip(st as int);
        lemma_split_on_first(tail, sep, len - st);
        assert(tail.take(len - st) =~= v@.subrange(st as int, len as int));
        assert(tail =~= v@.subrange(st as int, len as int));
        assert(r.deep_view() =~= split_on(v@, sep));
    }
    r
}

/// What the lossy UTF-8 decoding of a byte sequence reads as; a function of
/// the bytes alone.
pub uninterp spec fn lossy_of(bytes: Seq<u8>) -> Seq<char>;

/// Relies on `String::from_utf8_lossy`: decodes the bytes as UTF-8, with
/// U+FFFD standing in for undecodable ranges.
#[verifier::external_body]
pub fn bytes_to_string_lossy(v: &Vec<u8>) -> (r: String)
    ensures
        r@ == lossy_of(v@),
{
    String::from_utf8_lossy(v).into_owned()
}

} // verus!