use vstd::prelude::*;

verus! {

/// The character sequences of a sequence of strings.
pub open spec fn views(s: Seq<String>) -> Seq<Seq<char>> {
    s.map_values(|x: String| x@)
}

/// Whether `needle` occurs among `haystack`, compared by content.
pub fn contains_string(haystack: &Vec<String>, needle: &String) -> (found: bool)
    ensures
        found == views(haystack@).contains(needle@),
{
    let mut i: usize = 0;
    while i < haystack.len()
        invariant
            i <= haystack.len(),
            forall|j: int| 0 <= j < i ==> haystack@[j]@ != needle@,
        decreases haystack.len() - i,
    {
        if haystack[i] == *needle {
            assert(views(haystack@)[i as int] == needle@);
            return true;
        }
        i += 1;
    }
    proof {
        if views(haystack@).contains(needle@) {
            let k = choose|k: int| 0 <= k < views(haystack@).len() && views(haystack@)[k] == needle@;
            assert(haystack@[k]@ == needle@);
        }
    }
    false
}


/// Strict lexicographic order on character sequences. Because UTF-8 keeps
/// code point order byte by byte, this is the order in which Rust compares
/// `String`s.
pub open spec fn seq_lt(a: Seq<char>, b: Seq<char>) -> bool
    decreases a.len(),
{
    if b.len() == 0 {
        false
    } else if a.len() == 0 {
        true
    } else if a[0] != b[0] {
        a[0] < b[0]
    } else {
        seq_lt(a.drop_first(), b.drop_first())
    }
}

/// No sequence comes strictly before itself.
pub proof fn lemma_seq_lt_irreflexive(a: Seq<char>)
    ensures
        !seq_lt(a, a),
    decreases a.len(),
{
    if a.len() > 0 {
        lemma_seq_lt_irreflexive(a.drop_first());
    }
}

/// The lexicographic order is transitive.
pub proof fn lemma_seq_lt_transitive(a: Seq<char>, b: Seq<char>, c: Seq<char>)
    requires
        seq_lt(a, b),
        seq_lt(b, c),
    ensures
        seq_lt(a, c),
    decreases a.len(),
{
    if a.len() > 0 && b.len() > 0 && c.len() > 0 && a[0] == b[0] && b[0] == c[0] {
        lemma_seq_lt_transitive(a.drop_first(), b.drop_first(), c.drop_first());
    }
}

/// Two different sequences are ordered one way or the other.
pub proof fn lemma_seq_lt_total(a: Seq<char>, b: Seq<char>)
    requires
        a != b,
    ensures
        seq_lt(a, b) || seq_lt(b, a),
    decreases a.len(),
{
    if a.len() > 0 && b.len() > 0 && a[0] == b[0] {
        if a.drop_first() == b.drop_first() {
            assert(a =~= seq![a[0]] + a.drop_first());
            assert(b =~= seq![b[0]] + b.drop_first());
        }
        lemma_seq_lt_total(a.drop_first(), b.drop_first());
    } else if a.len() == 0 && b.len() == 0 {
        assert(a =~= b);
    }
}

/// Whether `a` comes strictly before `b` in lexicographic order.
pub fn string_lt(a: &String, b: &String) -> (lt: bool)
    ensures
        lt == seq_lt(a@, b@),
{
    let sa = a.as_str();
    let sb = b.as_str();
    let la = sa.unicode_len();
    let lb = sb.unicode_len();
    let mut i: usize = 0;
    assert(a@.skip(0) =~= a@);
    assert(b@.skip(0) =~= b@);
    while i < la && i < lb
        invariant
            i <= la,
            i <= lb,
            la == a@.len(),
            lb == b@.len(),
            sa@ == a@,
            sb@ == b@,
            seq_lt(a@, b@) == seq_lt(a@.skip(i as int), b@.skip(i as int)),
        decreases la - i,
    {
        let ca = sa.get_char(i);
        let cb = sb.get_char(i);
        assert(a@.skip(i as int)[0] == ca);
        assert(b@.skip(i as int)[0] == cb);
        if ca != cb {
            return ca < cb;
        }
        assert(a@.skip(i as int).drop_first() =~= a@.skip(i + 1));
        assert(b@.skip(i as int).drop_first() =~= b@.skip(i + 1));
        i += 1;
    }
    i < lb
}

/// Every element comes strictly before every later one.
pub open spec fn strictly_sorted(s: Seq<Seq<char>>) -> bool {
    forall|i: int, j: int| 0 <= i < j < s.len() ==> seq_lt(#[trigger] s[i], #[trigger] s[j])
}

/// No element occurs twice.
pub open spec fn distinct(s: Seq<Seq<char>>) -> bool {
    forall|i: int, j: int| 0 <= i < j < s.len() ==> #[trigger] s[i] != #[trigger] s[j]
}

/// Index of the least element of `v[from..]`.
fn index_of_least(v: &Vec<String>) -> (m: usize)
    requires
        v.len() > 0,
    ensures
        m < v.len(),
        forall|k: int| 0 <= k < v.len() && k != m ==> !seq_lt(#[trigger] v@[k]@, v@[m as int]@),
{
    let mut m: usize = 0;
    let mut i: usize = 1;
    while i < v.len()
        invariant
            m < i <= v.len(),
            forall|k: int| 0 <= k < i && k != m ==> !seq_lt(#[trigger] v@[k]@, v@[m as int]@),
        decreases v.len() - i,
    {
        if string_lt(&v[i], &v[m]) {
            proof {
                assert forall|k: int| 0 <= k < i + 1 && k != i implies !seq_lt(#[trigger] v@[k]@, v@[i as int]@) by {
                    if k != m && seq_lt(v@[k]@, v@[i as int]@) {
                        lemma_seq_lt_transitive(v@[k]@, v@[i as int]@, v@[m as int]@);
                    }
                    if k == m {
                        lemma_seq_lt_irreflexive(v@[i as int]@);
                        if seq_lt(v@[k]@, v@[i as int]@) {
                            lemma_seq_lt_transitive(v@[i as int]@, v@[k]@, v@[i as int]@);
                        }
                    }
                }
            }
            m = i;
        }
        i += 1;
    }
    m
}

/// Sorts distinct strings into strictly increasing lexicographic order.
pub fn sort_strings(v: Vec<String>) -> (sorted: Vec<String>)
    requires
        distinct(views(v@)),
    ensures
        strictly_sorted(views(sorted@)),
        views(sorted@).to_set() == views(v@).to_set(),
        sorted.len() == v.len(),
{
    let ghost all = views(v@).to_set();
    let mut rest = v;
    let mut sorted: Vec<String> = Vec::new();
    while rest.len() > 0
        invariant
            distinct(views(rest@)),
            strictly_sorted(views(sorted@)),
            forall|i: int, k: int| 0 <= i < sorted.len() && 0 <= k < rest.len()
                ==> seq_lt(#[trigger] sorted@[i]@, #[trigger] rest@[k]@),
            views(sorted@).to_set() + views(rest@).to_set() == all,
            sorted.len() + rest.len() == v.len(),
        decreases rest.len(),
    {
        let m = index_of_least(&rest);
        let ghost before = rest@;
        let ghost sorted_before = sorted@;
        let x = rest.remove(m);
        proof {
            assert forall|k: int| 0 <= k < rest.len() implies seq_lt(x@, #[trigger] rest@[k]@) by {
                let kk = if k < m { k } else { k + 1 };
                assert(rest@[k] == before[kk]);
                assert(views(before)[kk] != views(before)[m as int]);
                lemma_seq_lt_total(x@, before[kk]@);
            }
        }
        sorted.push(x);
        proof {
            assert(views(sorted@) =~= views(sorted_before).push(x@));
            assert(views(before) =~= views(rest@).insert(m as int, x@));
            assert forall|i: int, j: int| 0 <= i < j < views(rest@).len()
                implies #[trigger] views(rest@)[i] != #[trigger] views(rest@)[j] by {
                let ii = if i < m { i } else { i + 1 };
                let jj = if j < m { j } else { j + 1 };
                assert(views(rest@)[i] == views(before)[ii]);
                assert(views(rest@)[j] == views(before)[jj]);
            }
            assert forall|i: int, j: int| 0 <= i < j < views(sorted@).len()
                implies seq_lt(#[trigger] views(sorted@)[i], #[trigger] views(sorted@)[j]) by {
                if j == sorted.len() - 1 {
                    assert(sorted@[i] == sorted_before[i]);
                    assert(before[m as int] == x);
                }
            }
            assert(views(sorted@).to_set() =~= views(sorted_before).to_set().insert(x@)) by {
                assert forall|e: Seq<char>| views(sorted@).to_set().contains(e)
                    <==> views(sorted_before).to_set().insert(x@).contains(e) by {
                    if views(sorted@).contains(e) {
                        let t = choose|t: int| 0 <= t < views(sorted@).len() && views(sorted@)[t] == e;
                        if t < sorted.len() - 1 {
                            assert(views(sorted_before)[t] == e);
                        }
                    }
                    if views(sorted_before).contains(e) {
                        let t = choose|t: int| 0 <= t < views(sorted_before).len() && views(sorted_before)[t] == e;
                        assert(views(sorted@)[t] == e);
                    }
                    if e == x@ {
                        assert(views(sorted@)[sorted.len() - 1] == e);
                    }
                }
            }
            assert(views(before).to_set() =~= views(rest@).to_set().insert(x@)) by {
                assert forall|e: Seq<char>| views(before).to_set().contains(e)
                    <==> views(rest@).to_set().insert(x@).contains(e) by {
                    if views(before).contains(e) {
                        let t = choose|t: int| 0 <= t < views(before).len() && views(before)[t] == e;
                        if t < m {
                            assert(views(rest@)[t] == e);
                        } else if t > m {
                            assert(views(rest@)[t - 1] == e);
                        }
                    }
                    if views(rest@).contains(e) {
                        let t = choose|t: int| 0 <= t < views(rest@).len() && views(rest@)[t] == e;
                        if t < m {
                            assert(views(before)[t] == e);
                        } else {
                            assert(views(before)[t + 1] == e);
                        }
                    }
                    if e == x@ {
                        assert(views(before)[m as int] == e);
                    }
                }
            }
            assert(views(sorted@).to_set() + views(rest@).to_set() =~= all);
        }
    }
    proof {
        assert(views(rest@).to_set() =~= Set::empty());
        assert(views(sorted@).to_set() + views(rest@).to_set() =~= views(sorted@).to_set());
    }
    sorted
}


/// Whether two string slices hold the same characters.
pub fn str_equal(a: &str, b: &str) -> (same: bool)
    ensures
        same == (a@ == b@),
{
    let la = a.unicode_len();
    let lb = b.unicode_len();
    if la != lb {
        return false;
    }
    let mut i: usize = 0;
    while i < la
        invariant
            i <= la,
            la == a@.len(),
            lb == b@.len(),
            la == lb,
            forall|j: int| 0 <= j < i ==> a@[j] == b@[j],
        decreases la - i,
    {
        if a.get_char(i) != b.get_char(i) {
            return false;
        }
        i += 1;
    }
    assert(a@ =~= b@);
    true
}

/// Whether `x` occurs in `v`.
pub fn contains_u64(v: &Vec<u64>, x: u64) -> (found: bool)
    ensures
        found == v@.contains(x),
{
    let mut i: usize = 0;
    while i < v.len()
        invariant
            i <= v.len(),
            forall|j: int| 0 <= j < i ==> v@[j] != x,
        decreases v.len() - i,
    {
        if v[i] == x {
            return true;
        }
        i += 1;
    }
    false
}


/// A copy of `v`, string by string.
pub fn clone_strings(v: &Vec<String>) -> (copy: Vec<String>)
    ensures
        views(copy@) == views(v@),
{
    let mut copy: Vec<String> = Vec::new();
    let mut i: usize = 0;
    while i < v.len()
        invariant
            i <= v.len(),
            views(copy@) == views(v@.take(i as int)),
        decreases v.len() - i,
    {
        let ghost before = copy@;
        let item = v[i].clone();
        copy.push(item);
        proof {
            assert(views(before) == views(v@.take(i as int)));
            assert(views(before).len() == before.len());
            assert(before.len() == i);
            assert forall|j: int| 0 <= j < i + 1 implies views(copy@)[j] == views(v@.take(i + 1))[j] by {
                if j < i {
                    assert(copy@[j] == before[j]);
                    assert(views(before)[j] == views(v@.take(i as int))[j]);
                }
            }
            assert(views(copy@) =~= views(v@.take(i + 1)));
        }
        i += 1;
    }
    assert(v@.take(v.len() as int) =~= v@);
    copy
}


/// `s` begins with `p`.
pub open spec fn seq_starts_with(s: Seq<char>, p: Seq<char>) -> bool {
    p.len() <= s.len() && s.subrange(0, p.len() as int) == p
}

/// Whether `s` begins with `p`.
pub fn starts_with(s: &str, p: &str) -> (yes: bool)
    ensures
        yes == seq_starts_with(s@, p@),
{
    let ls = s.unicode_len();
    let lp = p.unicode_len();
    if lp > ls {
        return false;
    }
    let mut i: usize = 0;
    while i < lp
        invariant
            i <= lp,
            lp <= ls,
            ls == s@.len(),
            lp == p@.len(),
            forall|j: int| 0 <= j < i ==> s@[j] == p@[j],
        decreases lp - i,
    {
        if s.get_char(i) != p.get_char(i) {
            assert(s@.subrange(0, lp as int)[i as int] != p@[i as int]);
            return false;
        }
        i += 1;
    }
    assert(s@.subrange(0, lp as int) =~= p@);
    true
}

/// Position of the first occurrence of `c` in `s`.
pub open spec fn char_index(s: Seq<char>, c: char) -> Option<int> {
    if exists|i: int| 0 <= i < s.len() && s[i] == c {
        Some(choose|i: int| 0 <= i < s.len() && s[i] == c && forall|j: int| 0 <= j < i ==> s[j] != c)
    } else {
        None
    }
}

/// Finds the first occurrence of `c` in `s`.
pub fn find_char(s: &str, c: char) -> (found: Option<usize>)
    ensures
        match found {
            Some(i) => char_index(s@, c) == Some(i as int) && i < s@.len() && s@[i as int] == c,
            None => char_index(s@, c) is None,
        },
{
    let n = s.unicode_len();
    let mut i: usize = 0;
    while i < n
        invariant
            i <= n,
            n == s@.len(),
            forall|j: int| 0 <= j < i ==> s@[j] != c,
        decreases n - i,
    {
        if s.get_char(i) == c {
            proof {
                let k = choose|k: int| 0 <= k < s@.len() && s@[k] == c && forall|j: int| 0 <= j < k ==> s@[j] != c;
                assert(s@[i as int] == c);
                if k < i as int {
                    assert(s@[k] != c);
                }
                if (i as int) < k {
                    assert(s@[i as int] != c);
                }
            }
            return Some(i);
        }
        i += 1;
    }
    None
}

/// The characters of `s` from position `from` to `to`.
pub fn substring(s: &str, from: usize, to: usize) -> (sub: String)
    requires
        from <= to <= s@.len(),
    ensures
        sub@ == s@.subrange(from as int, to as int),
{
    s.substring_char(from, to).to_owned()
}

} // verus!
