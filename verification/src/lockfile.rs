use vstd::prelude::*;

use crate::metadata::ResolvedPackage;
use vstd::utf8::encode_utf8;

verus! {

/// Byte that ends a line.
pub const NEWLINE: u8 = 10;

/// Byte that opens a table header.
pub const OPEN_BRACKET: u8 = 91;

/// Byte that closes a quoted value.
pub const QUOTE: u8 = 34;

pub open spec fn line_views(ls: Seq<Vec<u8>>) -> Seq<Seq<u8>> {
    ls.map_values(|l: Vec<u8>| l@)
}

/// The lines of `t`: the pieces between newline bytes. There is always at
/// least one, and the last is empty when `t` ends with a newline.
pub open spec fn split_lines(t: Seq<u8>) -> Seq<Seq<u8>>
    decreases t.len(),
{
    if t.len() == 0 {
        seq![seq![]]
    } else {
        let prev = split_lines(t.drop_last());
        if t.last() == NEWLINE {
            prev.push(seq![])
        } else {
            prev.update(prev.len() - 1, prev.last().push(t.last()))
        }
    }
}

/// The lines joined with a newline byte between each two.
pub open spec fn join_lines(ls: Seq<Seq<u8>>) -> Seq<u8>
    decreases ls.len(),
{
    if ls.len() == 0 {
        seq![]
    } else if ls.len() == 1 {
        ls[0]
    } else {
        join_lines(ls.drop_last()) + seq![NEWLINE] + ls.last()
    }
}

pub proof fn lemma_split_lines_nonempty(t: Seq<u8>)
    ensures
        split_lines(t).len() >= 1,
    decreases t.len(),
{
    if t.len() > 0 {
        lemma_split_lines_nonempty(t.drop_last());
    }
}

/// A line that opens a table: it starts with `[`.
pub open spec fn is_header(l: Seq<u8>) -> bool {
    l.len() > 0 && l[0] == OPEN_BRACKET
}

/// The header line of the table that line `i` belongs to, if any.
pub open spec fn section_of(lines: Seq<Seq<u8>>, i: int) -> Option<int>
    decreases i + 1,
{
    if i < 0 {
        None
    } else if is_header(lines[i]) {
        Some(i)
    } else {
        section_of(lines, i - 1)
    }
}

/// `l` begins with `p`.
pub open spec fn bytes_start_with(l: Seq<u8>, p: Seq<u8>) -> bool {
    p.len() <= l.len() && l.subrange(0, p.len() as int) == p
}

/// The quoted value of a line `<prefix>value"`, where the prefix is
/// `key = "`.
pub open spec fn field_value(l: Seq<u8>, prefix: Seq<u8>) -> Option<Seq<u8>> {
    if bytes_start_with(l, prefix) && l.len() > prefix.len() && l.last() == QUOTE {
        Some(l.subrange(prefix.len() as int, l.len() - 1))
    } else {
        None
    }
}

/// The value of the first line from line `k` to the end of its table that
/// has the given prefix; empty when there is none.
pub open spec fn block_field(lines: Seq<Seq<u8>>, k: int, prefix: Seq<u8>) -> Seq<u8>
    decreases lines.len() - k,
{
    if k < 0 || k >= lines.len() || is_header(lines[k]) {
        seq![]
    } else {
        match field_value(lines[k], prefix) {
            Some(v) => v,
            None => block_field(lines, k + 1, prefix),
        }
    }
}

pub open spec fn package_header() -> Seq<u8> {
    encode_utf8("[[package]]"@)
}

pub open spec fn name_prefix() -> Seq<u8> {
    encode_utf8("name = \""@)
}

pub open spec fn version_prefix() -> Seq<u8> {
    encode_utf8("version = \""@)
}

/// Name and version of the package entry whose header is line `j`.
pub open spec fn entry_of(lines: Seq<Seq<u8>>, j: int) -> (Seq<u8>, Seq<u8>) {
    (block_field(lines, j + 1, name_prefix()), block_field(lines, j + 1, version_prefix()))
}

/// Whether a table is kept: every table but a package entry, and a package
/// entry whose name and version `keep` holds.
pub open spec fn keeps_section(lines: Seq<Seq<u8>>, j: int, keep: Set<(Seq<u8>, Seq<u8>)>) -> bool {
    lines[j] != package_header() || keep.contains(entry_of(lines, j))
}

/// Whether line `i` is kept: lines before the first table are, and the
/// others go with their table.
pub open spec fn keeps_line(lines: Seq<Seq<u8>>, i: int, keep: Set<(Seq<u8>, Seq<u8>)>) -> bool {
    match section_of(lines, i) {
        None => true,
        Some(j) => keeps_section(lines, j, keep),
    }
}

/// The kept lines among the first `n`, in order.
pub open spec fn kept_lines(lines: Seq<Seq<u8>>, n: int, keep: Set<(Seq<u8>, Seq<u8>)>) -> Seq<Seq<u8>>
    decreases n,
{
    if n <= 0 {
        seq![]
    } else if keeps_line(lines, n - 1, keep) {
        kept_lines(lines, n - 1, keep).push(lines[n - 1])
    } else {
        kept_lines(lines, n - 1, keep)
    }
}

/// The lock file `t` with the package entries that `keep` does not hold
/// left out.
pub open spec fn filtered_lockfile(t: Seq<u8>, keep: Set<(Seq<u8>, Seq<u8>)>) -> Seq<u8> {
    let lines = split_lines(t);
    join_lines(kept_lines(lines, lines.len() as int, keep))
}

/// Name and version, as bytes, of each resolved package.
pub open spec fn resolved_keys(resolved: Seq<ResolvedPackage>) -> Set<(Seq<u8>, Seq<u8>)> {
    Set::new(
        |p: (Seq<u8>, Seq<u8>)|
            exists|k: int|
                0 <= k < resolved.len() && p == (encode_utf8(#[trigger] resolved[k].name@), encode_utf8(
                    resolved[k].version@,
                )),
    )
}

/// Splits `t` into lines.
pub fn lines_of(t: &Vec<u8>) -> (lines: Vec<Vec<u8>>)
    ensures
        line_views(lines@) == split_lines(t@),
{
    let mut lines: Vec<Vec<u8>> = Vec::new();
    let mut cur: Vec<u8> = Vec::new();
    let mut i: usize = 0;
    assert(t@.take(0) =~= seq![]);
    assert(line_views(lines@).push(cur@) =~= seq![seq![]]);
    while i < t.len()
        invariant
            i <= t.len(),
            line_views(lines@).push(cur@) == split_lines(t@.take(i as int)),
        decreases t.len() - i,
    {
        let b = t[i];
        let ghost prefix = t@.take(i as int);
        let ghost next = t@.take(i + 1);
        assert(next.drop_last() =~= prefix);
        assert(next.last() == b);
        let ghost before = line_views(lines@);
        let ghost cur_before = cur@;
        proof {
            lemma_split_lines_nonempty(prefix);
        }
        if b == NEWLINE {
            let done = cur;
            lines.push(done);
            cur = Vec::new();
            assert(line_views(lines@) =~= before.push(cur_before));
            assert(line_views(lines@).push(cur@) =~= split_lines(next));
        } else {
            cur.push(b);
            assert(split_lines(prefix).last() == cur_before);
            assert(line_views(lines@).push(cur@) =~= split_lines(next));
        }
        i += 1;
    }
    assert(t@.take(t.len() as int) =~= t@);
    let ghost before = line_views(lines@);
    lines.push(cur);
    assert(line_views(lines@) =~= before.push(lines@.last()@));
    lines
}

/// Joins lines with a newline byte between each two.
pub fn join(lines: &Vec<Vec<u8>>) -> (t: Vec<u8>)
    ensures
        t@ == join_lines(line_views(lines@)),
{
    let mut t: Vec<u8> = Vec::new();
    let mut k: usize = 0;
    while k < lines.len()
        invariant
            k <= lines.len(),
            t@ == join_lines(line_views(lines@).take(k as int)),
        decreases lines.len() - k,
    {
        let ghost prev = line_views(lines@).take(k as int);
        let ghost next = line_views(lines@).take(k + 1);
        assert(next.drop_last() =~= prev);
        assert(next.last() == lines@[k as int]@);
        if k > 0 {
            t.push(NEWLINE);
        }
        let ghost base = t@;
        let line = &lines[k];
        let mut j: usize = 0;
        while j < line.len()
            invariant
                j <= line.len(),
                t@ == base + line@.take(j as int),
            decreases line.len() - j,
        {
            t.push(line[j]);
            assert(t@ =~= base + line@.take(j + 1));
            j += 1;
        }
        assert(line@.take(line.len() as int) =~= line@);
        if k == 0 {
            assert(t@ =~= join_lines(next));
        } else {
            assert(t@ =~= join_lines(next));
        }
        k += 1;
    }
    assert(line_views(lines@).take(lines.len() as int) =~= line_views(lines@));
    t
}

fn bytes_equal(a: &[u8], b: &[u8]) -> (same: bool)
    ensures
        same == (a@ == b@),
{
    if a.len() != b.len() {
        return false;
    }
    let mut i: usize = 0;
    while i < a.len()
        invariant
            i <= a.len(),
            a.len() == b.len(),
            forall|j: int| 0 <= j < i ==> a@[j] == b@[j],
        decreases a.len() - i,
    {
        if a[i] != b[i] {
            return false;
        }
        i += 1;
    }
    assert(a@ =~= b@);
    true
}

fn header_line(l: &Vec<u8>) -> (yes: bool)
    ensures
        yes == is_header(l@),
{
    l.len() > 0 && l[0] == OPEN_BRACKET
}

fn value_after(l: &Vec<u8>, prefix: &[u8]) -> (v: Option<Vec<u8>>)
    ensures
        match v {
            Some(x) => field_value(l@, prefix@) == Some(x@),
            None => field_value(l@, prefix@) is None,
        },
{
    if prefix.len() >= l.len() || l[l.len() - 1] != QUOTE {
        return None;
    }
    let mut i: usize = 0;
    while i < prefix.len()
        invariant
            i <= prefix.len() < l.len(),
            forall|j: int| 0 <= j < i ==> l@[j] == prefix@[j],
        decreases prefix.len() - i,
    {
        if l[i] != prefix[i] {
            assert(l@.subrange(0, prefix.len() as int)[i as int] != prefix@[i as int]);
            return None;
        }
        i += 1;
    }
    assert(l@.subrange(0, prefix.len() as int) =~= prefix@);
    let mut v: Vec<u8> = Vec::new();
    let mut k: usize = prefix.len();
    while k < l.len() - 1
        invariant
            prefix.len() <= k <= l.len() - 1,
            v@ == l@.subrange(prefix.len() as int, k as int),
        decreases l.len() - k,
    {
        v.push(l[k]);
        assert(v@ =~= l@.subrange(prefix.len() as int, k + 1));
        k += 1;
    }
    Some(v)
}

fn field_in_block(lines: &Vec<Vec<u8>>, from: usize, prefix: &[u8]) -> (v: Vec<u8>)
    requires
        from <= lines.len(),
    ensures
        v@ == block_field(line_views(lines@), from as int, prefix@),
{
    let ghost ls = line_views(lines@);
    let mut k = from;
    while k < lines.len()
        invariant
            from <= k <= lines.len(),
            ls == line_views(lines@),
            block_field(ls, from as int, prefix@) == block_field(ls, k as int, prefix@),
        decreases lines.len() - k,
    {
        assert(ls[k as int] == lines@[k as int]@);
        if header_line(&lines[k]) {
            return Vec::new();
        }
        match value_after(&lines[k], prefix) {
            Some(v) => {
                return v;
            },
            None => {},
        }
        k += 1;
    }
    Vec::new()
}

fn is_resolved(resolved: &Vec<ResolvedPackage>, name: &Vec<u8>, version: &Vec<u8>) -> (found: bool)
    ensures
        found == resolved_keys(resolved@).contains((name@, version@)),
{
    let mut k: usize = 0;
    while k < resolved.len()
        invariant
            k <= resolved.len(),
            forall|j: int| 0 <= j < k ==> (encode_utf8(#[trigger] resolved@[j].name@), encode_utf8(
                resolved@[j].version@,
            )) != (name@, version@),
        decreases resolved.len() - k,
    {
        let n = resolved[k].name.as_str().as_bytes();
        let v = resolved[k].version.as_str().as_bytes();
        if bytes_equal(n, name.as_slice()) && bytes_equal(v, version.as_slice()) {
            return true;
        }
        k += 1;
    }
    false
}

/// Leaves out of the lock file `t` the package entries of packages that are
/// not among `resolved`; everything else is kept as it stands.
pub fn filter_lockfile(t: &Vec<u8>, resolved: &Vec<ResolvedPackage>) -> (out: Vec<u8>)
    ensures
        out@ == filtered_lockfile(t@, resolved_keys(resolved@)),
{
    let ghost keep = resolved_keys(resolved@);
    let lines = lines_of(t);
    let ghost ls = line_views(lines@);
    let header = "[[package]]".as_bytes();
    let name_key = "name = \"".as_bytes();
    let version_key = "version = \"".as_bytes();
    let mut kept: Vec<Vec<u8>> = Vec::new();
    let mut section: Option<usize> = None;
    let mut keep_section = true;
    let mut i: usize = 0;
    while i < lines.len()
        invariant
            i <= lines.len(),
            ls == line_views(lines@),
            keep == resolved_keys(resolved@),
            header@ == package_header(),
            name_key@ == name_prefix(),
            version_key@ == version_prefix(),
            match section {
                None => section_of(ls, i - 1) is None,
                Some(j) => section_of(ls, i - 1) == Some(j as int) && j < i && keep_section == keeps_section(
                    ls,
                    j as int,
                    keep,
                ),
            },
            line_views(kept@) == kept_lines(ls, i as int, keep),
        decreases lines.len() - i,
    {
        assert(ls[i as int] == lines@[i as int]@);
        if header_line(&lines[i]) {
            let name = field_in_block(&lines, i + 1, name_key);
            let version = field_in_block(&lines, i + 1, version_key);
            keep_section = !bytes_equal(lines[i].as_slice(), header) || is_resolved(resolved, &name, &version);
            section = Some(i);
        }
        let ghost before = line_views(kept@);
        if section.is_none() || keep_section {
            kept.push(lines[i].clone());
            assert(line_views(kept@) =~= before.push(ls[i as int]));
        }
        i += 1;
    }
    join(&kept)
}

/// Splitting a text into lines and joining them again gives the text back.
pub proof fn law_join_split(t: Seq<u8>)
    ensures
        join_lines(split_lines(t)) == t,
    decreases t.len(),
{
    if t.len() > 0 {
        let p = t.drop_last();
        law_join_split(p);
        lemma_split_lines_nonempty(p);
        let s = split_lines(p);
        if t.last() == NEWLINE {
            assert(s.push(seq![]).drop_last() =~= s);
            assert(join_lines(s.push(seq![])) =~= join_lines(s) + seq![NEWLINE] + seq![]);
        } else {
            lemma_join_extend_last(s, t.last());
        }
        assert(t =~= p.push(t.last()));
    }
}

proof fn lemma_join_extend_last(s: Seq<Seq<u8>>, c: u8)
    requires
        s.len() >= 1,
    ensures
        join_lines(s.update(s.len() - 1, s.last().push(c))) == join_lines(s).push(c),
{
    let u = s.update(s.len() - 1, s.last().push(c));
    if s.len() == 1 {
        assert(join_lines(u) == u[0]);
    } else {
        assert(u.drop_last() =~= s.drop_last());
        assert(join_lines(u) =~= join_lines(s).push(c));
    }
}


proof fn lemma_section_in_range(lines: Seq<Seq<u8>>, i: int)
    requires
        i < lines.len(),
    ensures
        match section_of(lines, i) {
            Some(j) => 0 <= j <= i,
            None => true,
        },
    decreases i + 1,
{
    if i >= 0 && !is_header(lines[i]) {
        lemma_section_in_range(lines, i - 1);
    }
}

proof fn lemma_all_kept(lines: Seq<Seq<u8>>, n: int, keep: Set<(Seq<u8>, Seq<u8>)>)
    requires
        0 <= n <= lines.len(),
        forall|i: int| 0 <= i < n ==> keeps_line(lines, i, keep),
    ensures
        kept_lines(lines, n, keep) == lines.take(n),
    decreases n,
{
    if n > 0 {
        lemma_all_kept(lines, n - 1, keep);
        assert(lines.take(n) =~= lines.take(n - 1).push(lines[n - 1]));
    } else {
        assert(lines.take(0) =~= seq![]);
    }
}

/// The package header is a table header.
proof fn lemma_package_header_is_header()
    ensures
        is_header(package_header()),
{
    reveal_strlit("[[package]]");
    let cs = "[[package]]"@;
    assert(cs.len() == 11);
    assert(vstd::utf8::is_ascii_chars(cs));
    vstd::utf8::is_ascii_chars_encode_utf8(cs);
    assert(cs[0] as u8 == encode_utf8(cs)[0]);
}

proof fn lemma_kept_lines_origin(lines: Seq<Seq<u8>>, n: int, keep: Set<(Seq<u8>, Seq<u8>)>)
    requires
        0 <= n <= lines.len(),
    ensures
        forall|k: int|
            0 <= k < kept_lines(lines, n, keep).len() ==> exists|i: int|
                0 <= i < n && keeps_line(lines, i, keep) && lines[i] == #[trigger] kept_lines(lines, n, keep)[k],
    decreases n,
{
    if n > 0 {
        lemma_kept_lines_origin(lines, n - 1, keep);
        let prev = kept_lines(lines, n - 1, keep);
        let cur = kept_lines(lines, n, keep);
        assert forall|k: int| 0 <= k < cur.len() implies exists|i: int|
            0 <= i < n && keeps_line(lines, i, keep) && lines[i] == #[trigger] cur[k] by {
            if k < prev.len() {
                assert(cur[k] == prev[k]);
                let i = choose|i: int| 0 <= i < n - 1 && keeps_line(lines, i, keep) && lines[i] == #[trigger] prev[k];
            } else {
                assert(cur[k] == lines[n - 1]);
            }
        }
    }
}

/// A package entry survives filtering only when it is to be kept: every
/// `[[package]]` header left among the kept lines opens the entry of a
/// package that `keep` holds. So with nothing to keep, no entry is left.
pub proof fn law_only_kept_entries_survive(t: Seq<u8>, keep: Set<(Seq<u8>, Seq<u8>)>)
    ensures
        forall|k: int|
            0 <= k < kept_lines(split_lines(t), split_lines(t).len() as int, keep).len()
                && #[trigger] kept_lines(split_lines(t), split_lines(t).len() as int, keep)[k] == package_header()
                ==> exists|j: int|
                0 <= j < split_lines(t).len() && split_lines(t)[j] == package_header() && keep.contains(
                    entry_of(split_lines(t), j),
                ),
{
    let lines = split_lines(t);
    let kept = kept_lines(lines, lines.len() as int, keep);
    lemma_kept_lines_origin(lines, lines.len() as int, keep);
    lemma_package_header_is_header();
    assert forall|k: int| 0 <= k < kept.len() && #[trigger] kept[k] == package_header() implies exists|j: int|
        0 <= j < lines.len() && lines[j] == package_header() && keep.contains(entry_of(lines, j)) by {
        let i = choose|i: int| 0 <= i < lines.len() && keeps_line(lines, i, keep) && lines[i] == #[trigger] kept[k];
        assert(section_of(lines, i) == Some(i));
        assert(keeps_section(lines, i, keep));
    }
}

/// When every package entry of a lock file is to be kept, filtering gives
/// the lock file back unchanged.
pub proof fn law_keeping_every_entry_changes_nothing(t: Seq<u8>, keep: Set<(Seq<u8>, Seq<u8>)>)
    requires
        forall|j: int|
            0 <= j < split_lines(t).len() && #[trigger] split_lines(t)[j] == package_header() ==> keep.contains(
                entry_of(split_lines(t), j),
            ),
    ensures
        filtered_lockfile(t, keep) == t,
{
    let lines = split_lines(t);
    assert forall|i: int| 0 <= i < lines.len() implies keeps_line(lines, i, keep) by {
        lemma_section_in_range(lines, i);
    }
    lemma_all_kept(lines, lines.len() as int, keep);
    assert(lines.take(lines.len() as int) =~= lines);
    law_join_split(t);
}

} // verus!
