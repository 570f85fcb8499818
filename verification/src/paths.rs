//! Reading partition coordinates off the paths of stored files.

use crate::dataset::{
    extension, file_path, part_value, path_upto, segment, DatasetPart, Format,
};
use vstd::prelude::*;
use vstd::string::{StrSliceExecFns, StringExecFns};

verus! {

/// The first position in `from..to` at which `s` holds `c`, or `to`.
pub open spec fn find_in(s: Seq<char>, c: char, from: int, to: int) -> int
    decreases to - from,
{
    if from >= to {
        to
    } else if s[from] == c {
        from
    } else {
        find_in(s, c, from + 1, to)
    }
}

/// The filter that the segment `from..end` of a path states: what stands
/// before its first `=` and what stands between that and the next `=` or the
/// end of the segment; none where the segment holds no `=`.
pub open spec fn segment_filter(path: Seq<char>, from: int, end: int) -> Option<
    (Seq<char>, Seq<char>),
> {
    let e = find_in(path, '=', from, end);
    if e >= end {
        None
    } else {
        Some((path.subrange(from, e), path.subrange(e + 1, find_in(path, '=', e + 1, end))))
    }
}

/// The filters that the segments of a path state, from position `from` on,
/// the segments being what stands between one `/` and the next.
pub open spec fn path_filters(path: Seq<char>, from: int) -> Seq<(Seq<char>, Seq<char>)>
    decreases path.len() - from,
{
    if from > path.len() {
        Seq::empty()
    } else {
        let end = find_in(path, '/', from, path.len() as int);
        let rest = if end >= path.len() || end < from {
            Seq::empty()
        } else {
            path_filters(path, end + 1)
        };
        match segment_filter(path, from, end) {
            Some(f) => seq![f] + rest,
            None => rest,
        }
    }
}

/// What `find_in` finds.
pub proof fn lemma_find_in(s: Seq<char>, c: char, from: int, to: int)
    requires
        0 <= from <= to <= s.len(),
    ensures
        from <= find_in(s, c, from, to) <= to,
        find_in(s, c, from, to) < to ==> s[find_in(s, c, from, to)] == c,
        forall|i: int| from <= i < find_in(s, c, from, to) ==> s[i] != c,
    decreases to - from,
{
    if from < to && s[from] != c {
        lemma_find_in(s, c, from + 1, to);
    }
}

/// The characters of a string.
pub fn chars_of(s: &str) -> (chars: Vec<char>)
    ensures
        chars@ == s@,
{
    let n = s.unicode_len();
    let mut chars: Vec<char> = Vec::new();
    let mut i: usize = 0;
    while i < n
        invariant
            i <= n,
            n == s@.len(),
            chars@ == s@.subrange(0, i as int),
        decreases n - i,
    {
        chars.push(s.get_char(i));
        assert(chars@ =~= s@.subrange(0, i + 1));
        i += 1;
    }
    assert(s@.subrange(0, n as int) =~= s@);
    chars
}

/// Finds the first `c` in `from..to`.
pub fn find_char(chars: &Vec<char>, c: char, from: usize, to: usize) -> (at: usize)
    requires
        from <= to <= chars.len(),
    ensures
        at == find_in(chars@, c, from as int, to as int),
        from <= at <= to,
{
    let mut i: usize = from;
    while i < to
        invariant
            from <= i <= to <= chars.len(),
            find_in(chars@, c, from as int, to as int) == find_in(chars@, c, i as int, to as int),
        decreases to - i,
    {
        if chars[i] == c {
            return i;
        }
        i += 1;
    }
    to
}

/// The filters as pairs of sequences of characters.
pub open spec fn filters_view(filters: Seq<(String, String)>) -> Seq<(Seq<char>, Seq<char>)> {
    filters.map_values(|f: (String, String)| (f.0@, f.1@))
}

/// Reads the partition coordinate off a path: every segment that holds an
/// `=` states a filter, its name before the first `=` and its value after
/// it, up to the next `=` if there is one.
pub fn filters_from_path(path: &str) -> (filters: Vec<(String, String)>)
    ensures
        filters_view(filters@) == path_filters(path@, 0),
{
    let chars = chars_of(path);
    let n = chars.len();
    let mut filters: Vec<(String, String)> = Vec::new();
    let mut from: usize = 0;
    let mut done = false;
    assert(filters_view(filters@) =~= Seq::empty());
    assert(Seq::<(Seq<char>, Seq<char>)>::empty() + path_filters(path@, 0) =~= path_filters(
        path@,
        0,
    ));
    while !done
        invariant
            n == chars.len(),
            chars@ == path@,
            from <= n,
            !done ==> filters_view(filters@) + path_filters(path@, from as int) == path_filters(
                path@,
                0,
            ),
            done ==> filters_view(filters@) == path_filters(path@, 0),
        decreases n - from, !done as int,
    {
        let end = find_char(&chars, '/', from, n);
        let e = find_char(&chars, '=', from, end);
        let ghost before = filters_view(filters@);
        let ghost rest = if end >= n {
            Seq::<(Seq<char>, Seq<char>)>::empty()
        } else {
            path_filters(path@, end + 1)
        };
        if e < end {
            let e2 = find_char(&chars, '=', e + 1, end);
            let name = String::from_str(path.substring_char(from, e));
            let value = String::from_str(path.substring_char(e + 1, e2));
            filters.push((name, value));
            proof {
                let f = (path@.subrange(from as int, e as int), path@.subrange(e + 1, e2 as int));
                assert(filters_view(filters@) =~= before.push(f));
                assert(before.push(f) + rest =~= before + (seq![f] + rest));
            }
        }
        if end >= n {
            done = true;
            proof {
                assert(filters_view(filters@) + rest =~= filters_view(filters@));
            }
        } else {
            from = end + 1;
        }
    }
    filters
}

/// Whether `marker` stands somewhere in `path`.
pub open spec fn has_marker(path: Seq<char>, marker: Seq<char>) -> bool {
    exists|i: int|
        0 <= i && i + marker.len() <= path.len() && #[trigger] path.subrange(
            i,
            i + marker.len(),
        ) == marker
}

/// Whether `marker` stands in `path` at position `i`, as far as its first
/// `k` characters go.
pub open spec fn matches_upto(path: Seq<char>, marker: Seq<char>, i: int, k: int) -> bool {
    forall|j: int| 0 <= j < k ==> path[i + j] == #[trigger] marker[j]
}

/// Whether the path of a file names the marker of a format, such as its
/// extension.
pub fn path_has_marker(path: &str, marker: &str) -> (b: bool)
    ensures
        b == has_marker(path@, marker@),
{
    let p = chars_of(path);
    let m = chars_of(marker);
    if m.len() > p.len() {
        assert(!has_marker(path@, marker@));
        return false;
    }
    let last = p.len() - m.len();
    let mut i: usize = 0;
    while i <= last
        invariant
            i <= last + 1,
            last == p.len() - m.len(),
            p@ == path@,
            m@ == marker@,
            forall|k: int|
                0 <= k < i ==> #[trigger] path@.subrange(k, k + marker@.len()) != marker@,
        decreases last + 1 - i,
    {
        let mut j: usize = 0;
        while j < m.len() && p[i + j] == m[j]
            invariant
                j <= m.len(),
                i + m.len() <= p.len(),
                matches_upto(p@, m@, i as int, j as int),
            decreases m.len() - j,
        {
            j += 1;
        }
        if j == m.len() {
            assert(path@.subrange(i as int, i + marker@.len()) =~= marker@);
            return true;
        }
        proof {
            let window = path@.subrange(i as int, i + marker@.len());
            assert(window[j as int] != marker@[j as int]);
        }
        i += 1;
    }
    assert(!has_marker(path@, marker@)) by {
        if has_marker(path@, marker@) {
            let k = choose|k: int|
                0 <= k && k + marker@.len() <= path@.len() && #[trigger] path@.subrange(
                    k,
                    k + marker@.len(),
                ) == marker@;
            assert(k < i);
        }
    }
    false
}

/// The parts that a list of stored files stands for: each part knows its
/// path and the filters that the path states, and has no table yet.
pub fn parts_from_paths(paths: &Vec<String>) -> (parts: Vec<DatasetPart>)
    ensures
        parts.len() == paths.len(),
        forall|i: int|
            0 <= i < parts.len() ==> {
                &&& (#[trigger] parts[i]).wf()
                &&& parts[i].table is None
                &&& parts[i].path matches Some(p) && p@ == paths[i]@
                &&& parts[i].filters matches Some(f) && filters_view(f@) == path_filters(
                    paths[i]@,
                    0,
                )
            },
{
    let mut parts: Vec<DatasetPart> = Vec::new();
    let mut i: usize = 0;
    while i < paths.len()
        invariant
            i <= paths.len(),
            parts.len() == i,
            forall|k: int|
                0 <= k < i ==> {
                    &&& (#[trigger] parts[k]).wf()
                    &&& parts[k].table is None
                    &&& parts[k].path matches Some(p) && p@ == paths[k]@
                    &&& parts[k].filters matches Some(f) && filters_view(f@) == path_filters(
                        paths[k]@,
                        0,
                    )
                },
        decreases paths.len() - i,
    {
        let filters = filters_from_path(paths[i].as_str());
        parts.push(DatasetPart::new(None, Some(filters), Some(paths[i].clone())));
        i += 1;
    }
    parts
}

/// Whether a piece of text holds neither `/` nor `=`.
pub open spec fn plain(s: Seq<char>) -> bool {
    forall|i: int| 0 <= i < s.len() ==> #[trigger] s[i] != '/' && s[i] != '='
}

/// Whether a piece of text holds no `=`.
pub open spec fn states_nothing(s: Seq<char>) -> bool {
    forall|i: int| 0 <= i < s.len() ==> #[trigger] s[i] != '='
}

/// Where two texts agree on a stretch, the same is found in it.
pub proof fn lemma_find_same(s: Seq<char>, t: Seq<char>, c: char, from: int, to: int, shift: int)
    requires
        0 <= from <= to <= s.len(),
        0 <= from + shift,
        to + shift <= t.len(),
        forall|i: int| from <= i < to ==> s[i] == t[i + shift],
    ensures
        find_in(t, c, from + shift, to + shift) == find_in(s, c, from, to) + shift,
    decreases to - from,
{
    if from < to && s[from] != c {
        lemma_find_same(s, t, c, from + 1, to, shift);
    }
}

/// Where two texts agree on a segment, the segment states the same filter.
pub proof fn lemma_segment_same(s: Seq<char>, t: Seq<char>, from: int, end: int, shift: int)
    requires
        0 <= from <= end <= s.len(),
        0 <= from + shift,
        end + shift <= t.len(),
        forall|i: int| from <= i < end ==> s[i] == t[i + shift],
    ensures
        segment_filter(t, from + shift, end + shift) == segment_filter(s, from, end),
{
    lemma_find_same(s, t, '=', from, end, shift);
    lemma_find_in(s, '=', from, end);
    let e = find_in(s, '=', from, end);
    if e < end {
        lemma_find_same(s, t, '=', e + 1, end, shift);
        lemma_find_in(s, '=', e + 1, end);
        let e2 = find_in(s, '=', e + 1, end);
        assert(s.subrange(from, e) =~= t.subrange(from + shift, e + shift));
        assert(s.subrange(e + 1, e2) =~= t.subrange(e + 1 + shift, e2 + shift));
    }
}

/// What stands after a `/` states the filters it states on its own.
pub proof fn lemma_filters_after(a: Seq<char>, b: Seq<char>, k: int)
    requires
        0 <= k <= b.len(),
    ensures
        path_filters(a + seq!['/'] + b, a.len() + 1 + k) == path_filters(b, k),
    decreases b.len() - k,
{
    let s = a + seq!['/'] + b;
    let shift: int = (a.len() + 1) as int;
    assert forall|i: int| 0 <= i < b.len() implies b[i] == s[i + shift] by {}
    lemma_find_same(b, s, '/', k, b.len() as int, shift);
    lemma_find_in(b, '/', k, b.len() as int);
    let end = find_in(b, '/', k, b.len() as int);
    lemma_segment_same(b, s, k, end, shift);
    if end < b.len() {
        lemma_filters_after(a, b, end + 1);
    }
}

/// Two texts joined by a `/` state the filters of the first followed by those
/// of the second.
pub proof fn lemma_filters_joined(a: Seq<char>, b: Seq<char>, from: int)
    requires
        0 <= from <= a.len(),
    ensures
        path_filters(a + seq!['/'] + b, from) == path_filters(a, from) + path_filters(b, 0),
    decreases a.len() - from,
{
    let s = a + seq!['/'] + b;
    assert forall|i: int| 0 <= i < a.len() implies a[i] == s[i] by {}
    lemma_find_in(a, '/', from, a.len() as int);
    let end = find_in(a, '/', from, a.len() as int);
    // the first `/` of the joined text from `from` on
    lemma_find_same(a, s, '/', from, end, 0);
    lemma_find_in(a, '/', from, end);
    assert(find_in(a, '/', from, end) == end) by {
        if find_in(a, '/', from, end) < end {
            assert(a[find_in(a, '/', from, end)] == '/');
        }
    }
    assert(s[end] == '/');
    lemma_find_split(s, '/', from, end, s.len() as int);
    lemma_segment_same(a, s, from, end, 0);
    let rest = path_filters(b, 0);
    if end < a.len() {
        lemma_filters_joined(a, b, end + 1);
        match segment_filter(a, from, end) {
            Some(f) => {
                assert(seq![f] + (path_filters(a, end + 1) + rest) =~= (seq![f] + path_filters(
                    a,
                    end + 1,
                )) + rest);
            },
            None => {},
        }
    } else {
        lemma_filters_after(a, b, 0);
        match segment_filter(a, from, end) {
            Some(f) => {
                assert(seq![f] + rest =~= (seq![f] + Seq::empty()) + rest);
            },
            None => {
                assert(rest =~= Seq::empty() + rest);
            },
        }
    }
}

/// Where nothing is found before `mid` and `mid` holds what is sought, it is
/// found at `mid`.
pub proof fn lemma_find_split(s: Seq<char>, c: char, from: int, mid: int, to: int)
    requires
        0 <= from <= mid < to <= s.len(),
        find_in(s, c, from, mid) == mid,
        s[mid] == c,
    ensures
        find_in(s, c, from, to) == mid,
    decreases mid - from,
{
    if from < mid {
        lemma_find_in(s, c, from, mid);
        if s[from] == c {
            assert(find_in(s, c, from, mid) == from);
        } else {
            lemma_find_split(s, c, from + 1, mid, to);
        }
    }
}

/// A text without `=` states no filter.
pub proof fn lemma_states_nothing(s: Seq<char>, from: int)
    requires
        0 <= from <= s.len(),
        states_nothing(s),
    ensures
        path_filters(s, from) == Seq::<(Seq<char>, Seq<char>)>::empty(),
    decreases s.len() - from,
{
    lemma_find_in(s, '/', from, s.len() as int);
    let end = find_in(s, '/', from, s.len() as int);
    lemma_find_in(s, '=', from, end);
    if find_in(s, '=', from, end) < end {
        assert(s[find_in(s, '=', from, end)] == '=');
    }
    if end < s.len() {
        lemma_states_nothing(s, end + 1);
    }
}

/// A segment of a plain name and a plain value states that name and value.
pub proof fn lemma_segment_states(name: Seq<char>, value: Seq<char>)
    requires
        plain(name),
        plain(value),
    ensures
        path_filters(segment(name, value), 0) == seq![(name, value)],
{
    let s = segment(name, value);
    let n = name.len() as int;
    assert forall|i: int| 0 <= i < s.len() implies s[i] != '/' by {
        if i < n {
            assert(s[i] == name[i]);
        } else if i > n {
            assert(s[i] == value[i - n - 1]);
        }
    }
    lemma_find_in(s, '/', 0, s.len() as int);
    let end = find_in(s, '/', 0, s.len() as int);
    if end < s.len() {
        assert(s[end] == '/');
    }
    assert(end == s.len());
    lemma_find_in(s, '=', 0, end);
    let e = find_in(s, '=', 0, end);
    assert(s[n] == '=');
    assert(e == n) by {
        if e < n {
            assert(s[e] == name[e]);
        }
    }
    lemma_find_in(s, '=', e + 1, end);
    let e2 = find_in(s, '=', e + 1, end);
    if e2 < end {
        assert(s[e2] == value[e2 - n - 1]);
    }
    assert(s.subrange(0, e) =~= name);
    assert(s.subrange(e + 1, e2) =~= value);
    assert(seq![(name, value)] + Seq::empty() =~= seq![(name, value)]);
}

/// The filters that the first `k` partition columns of a part name.
pub open spec fn named_filters(
    partitions: Seq<String>,
    filters: Option<Vec<(String, String)>>,
    k: int,
) -> Seq<(Seq<char>, Seq<char>)> {
    Seq::new(
        k as nat,
        |j: int| (partitions[j]@, part_value(filters, partitions[j]@).unwrap()),
    )
}

/// The directory of a part states its partition coordinate: read back, it
/// gives for each partition column, in order, the name of the column and the
/// value that the filters of the part give it, provided names and values
/// hold neither `/` nor `=`.
pub proof fn directory_states_filters(
    partitions: Seq<String>,
    filters: Option<Vec<(String, String)>>,
    k: int,
)
    requires
        1 <= k <= partitions.len(),
        forall|j: int|
            0 <= j < k ==> plain((#[trigger] partitions[j])@) && part_value(
                filters,
                partitions[j]@,
            ) is Some && plain(part_value(filters, partitions[j]@).unwrap()),
    ensures
        path_filters(path_upto(partitions, filters, k), 0) == named_filters(
            partitions,
            filters,
            k,
        ),
    decreases k,
{
    let name = partitions[k - 1]@;
    let value = part_value(filters, name).unwrap();
    lemma_segment_states(name, value);
    if k == 1 {
        assert(named_filters(partitions, filters, 1) =~= seq![(name, value)]);
    } else {
        directory_states_filters(partitions, filters, k - 1);
        let before = path_upto(partitions, filters, k - 1);
        lemma_filters_joined(before, segment(name, value), 0);
        assert(named_filters(partitions, filters, k) =~= named_filters(partitions, filters, k - 1)
            + seq![(name, value)]);
    }
}

/// The path of the file of a part states the partition coordinate of the
/// part: read back, it gives the filters that the partition columns name,
/// provided the root holds no `=` and names and values hold neither `/` nor
/// `=`.
pub proof fn file_path_states_filters(
    root: Seq<char>,
    partitions: Seq<String>,
    filters: Option<Vec<(String, String)>>,
    format: Format,
)
    requires
        states_nothing(root),
        forall|j: int|
            0 <= j < partitions.len() ==> plain((#[trigger] partitions[j])@) && part_value(
                filters,
                partitions[j]@,
            ) is Some && plain(part_value(filters, partitions[j]@).unwrap()),
    ensures
        path_filters(
            file_path(root, path_upto(partitions, filters, partitions.len() as int), format),
            0,
        ) == named_filters(partitions, filters, partitions.len() as int),
{
    reveal_strlit("/");
    reveal_strlit("/file.");
    reveal_strlit("parquet");
    reveal_strlit("ipc");
    reveal_strlit("csv");
    let k = partitions.len() as int;
    let dir = path_upto(partitions, filters, k);
    let file = "file."@ + extension(format);
    reveal_strlit("file.");
    assert("/file."@ =~= seq!['/'] + "file."@);
    assert("/"@ =~= seq!['/']);
    assert(states_nothing(file)) by {
        assert forall|i: int| 0 <= i < file.len() implies #[trigger] file[i] != '=' by {}
    }
    lemma_states_nothing(file, 0);
    lemma_states_nothing(root, 0);
    let none = Seq::<(Seq<char>, Seq<char>)>::empty();
    if k == 0 {
        assert(dir.len() == 0);
        assert(file_path(root, dir, format) =~= root + seq!['/'] + file);
        lemma_filters_joined(root, file, 0);
        assert(named_filters(partitions, filters, 0) =~= none);
        assert(none + none =~= none);
    } else {
        directory_states_filters(partitions, filters, k);
        lemma_dir_nonempty(partitions, filters, k);
        let head = root + seq!['/'] + dir;
        assert(file_path(root, dir, format) =~= head + seq!['/'] + file);
        lemma_filters_joined(head, file, 0);
        lemma_filters_joined(root, dir, 0);
        assert(none + path_filters(dir, 0) =~= path_filters(dir, 0));
        assert(path_filters(dir, 0) + none =~= path_filters(dir, 0));
    }
}

/// The directory of a part with a partition column is not empty.
pub proof fn lemma_dir_nonempty(
    partitions: Seq<String>,
    filters: Option<Vec<(String, String)>>,
    k: int,
)
    requires
        1 <= k <= partitions.len(),
    ensures
        path_upto(partitions, filters, k).len() > 0,
{
}

} // verus!
