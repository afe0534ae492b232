//! Names of files, taken apart. Directories are set apart by `/`.
use vstd::prelude::*;

verus! {

/// The last place of a byte, or -1.
pub open spec fn last_place(s: Seq<u8>, c: u8) -> int
    decreases s.len(),
{
    if s.len() == 0 {
        -1
    } else if s.last() == c {
        s.len() - 1
    } else {
        last_place(s.drop_last(), c)
    }
}

/// What follows the last `/`.
pub open spec fn after_slash(path: Seq<u8>) -> Seq<u8> {
    path.skip(last_place(path, 47) + 1)
}

/// The name of the file that a path leads to, where it names one: slashes and lone
/// dots at the end do not count, and two dots lead to no file. Empty where there is
/// no name.
pub open spec fn file_name(path: Seq<u8>) -> Seq<u8>
    decreases path.len(),
{
    if path.len() == 0 {
        path
    } else if path.last() == 47 || after_slash(path) == seq![46u8] {
        file_name(path.drop_last())
    } else if after_slash(path) == seq![46u8, 46u8] {
        seq![]
    } else {
        after_slash(path)
    }
}

/// What follows the last dot of the file name. A dot that begins the name does not count.
pub open spec fn extension(path: Seq<u8>) -> Option<Seq<u8>> {
    let name = file_name(path);
    let dot = last_place(name, 46);
    if dot <= 0 {
        None
    } else {
        Some(name.skip(dot + 1))
    }
}

/// The file name up to its extension.
pub open spec fn stem(path: Seq<u8>) -> Seq<u8> {
    let name = file_name(path);
    let dot = last_place(name, 46);
    if dot <= 0 {
        name
    } else {
        name.take(dot)
    }
}

proof fn lemma_last_place(s: Seq<u8>, c: u8)
    ensures
        -1 <= last_place(s, c) < s.len(),
        last_place(s, c) >= 0 ==> s[last_place(s, c)] == c,
        forall|i: int| last_place(s, c) < i < s.len() ==> s[i] != c,
    decreases s.len(),
{
    if s.len() > 0 && s.last() != c {
        lemma_last_place(s.drop_last(), c);
        assert forall|i: int| last_place(s, c) < i < s.len() implies s[i] != c by {
            if i < s.len() - 1 {
                assert(s[i] == s.drop_last()[i]);
            }
        }
    }
}

/// A path is put together from its stem and its extension again.
pub proof fn law_stem_and_extension(path: Seq<u8>)
    ensures
        match extension(path) {
            Some(ext) => file_name(path) == stem(path) + seq![46u8] + ext,
            None => file_name(path) == stem(path),
        },
{
    let name = file_name(path);
    lemma_last_place(name, 46);
    if let Some(ext) = extension(path) {
        assert(name =~= stem(path) + seq![46u8] + ext);
    }
}

/// A file name is no longer than its path, and is its path where it is as long.
pub proof fn lemma_name_of_whole(path: Seq<u8>)
    ensures
        file_name(path).len() <= path.len(),
        file_name(path).len() == path.len() ==> file_name(path) == path,
    decreases path.len(),
{
    if path.len() > 0 {
        lemma_last_place(path, 47);
        if path.last() == 47 || after_slash(path) == seq![46u8] {
            lemma_name_of_whole(path.drop_last());
        } else if after_slash(path).len() == path.len() {
            assert(after_slash(path) =~= path);
        }
    }
}

/// A path whose file name is not all of it is not its file name.
pub proof fn lemma_span_of_whole(path: Seq<u8>, start: int, dot: int, end: int)
    requires
        0 <= start <= dot < end <= path.len(),
        stem(path) == path.subrange(start, dot),
        extension(path) == Some(path.subrange(dot + 1, end)),
        start != 0 || end != path.len(),
    ensures
        file_name(path) != path,
{
    law_stem_and_extension(path);
    assert(file_name(path).len() == end - start);
}

/// What comes after the last place of a byte among the first `to`: that place and one more,
/// or 0.
fn after_last(s: &[u8], from: usize, to: usize, c: u8) -> (k: usize)
    requires
        from <= to <= s@.len(),
    ensures
        k == from + last_place(s@.subrange(from as int, to as int), c) + 1,
        from <= k <= to,
{
    let mut k: usize = to;
    proof {
        lemma_last_place(s@.subrange(from as int, to as int), c);
    }
    while k > from && s[k - 1] != c
        invariant
            from <= k <= to <= s@.len(),
            last_place(s@.subrange(from as int, to as int), c) == last_place(
                s@.subrange(from as int, k as int),
                c,
            ),
        decreases k,
    {
        assert(s@.subrange(from as int, k as int).drop_last() =~= s@.subrange(
            from as int,
            k - 1,
        ));
        k -= 1;
    }
    proof {
        lemma_last_place(s@.subrange(from as int, k as int), c);
    }
    k
}

/// Where the file name stands in a path.
pub fn name_span(path: &[u8]) -> (span: (usize, usize))
    ensures
        span.0 <= span.1 <= path@.len(),
        path@.subrange(span.0 as int, span.1 as int) == file_name(path@),
{
    let mut end: usize = path.len();
    assert(path@.take(end as int) =~= path@);
    while end > 0
        invariant
            end <= path@.len(),
            file_name(path@.take(end as int)) == file_name(path@),
        decreases end,
    {
        let start: usize = after_last(path, 0, end, 47);
        let ghost front = path@.take(end as int);
        assert(front =~= path@.subrange(0, end as int));
        assert(front.drop_last() =~= path@.take(end - 1));
        assert(after_slash(front) =~= path@.subrange(start as int, end as int));
        let lone: bool = end - start == 1 && path[start] == 46;
        assert(lone == (after_slash(front) == seq![46u8])) by {
            if lone {
                assert(after_slash(front) =~= seq![46u8]);
            } else if after_slash(front) == seq![46u8] {
                assert(after_slash(front).len() == 1 && after_slash(front)[0] == 46);
            }
        }
        if path[end - 1] == 47 || lone {
            end -= 1;
        } else if end - start == 2 && path[start] == 46 && path[start + 1] == 46 {
            assert(after_slash(front) =~= seq![46u8, 46u8]);
            assert(path@.subrange(0, 0) =~= Seq::<u8>::empty());
            return (0, 0);
        } else {
            assert(after_slash(front) != seq![46u8, 46u8]) by {
                if after_slash(front) == seq![46u8, 46u8] {
                    assert(after_slash(front)[0] == 46 && after_slash(front)[1] == 46);
                }
            }
            return (start, end);
        }
    }
    assert(path@.subrange(0, 0) =~= path@.take(0));
    (0, 0)
}

/// Where the stem ends and the extension begins in a path; `None` where the file name
/// has no extension.
pub fn extension_span(path: &[u8]) -> (r: (usize, Option<usize>, usize))
    ensures
        r.0 <= r.2 <= path@.len(),
        match r.1 {
            Some(dot) => r.0 <= dot < r.2 && extension(path@) == Some(
                path@.subrange(dot + 1, r.2 as int),
            ) && stem(path@) == path@.subrange(r.0 as int, dot as int),
            None => extension(path@) is None && stem(path@) == path@.subrange(
                r.0 as int,
                r.2 as int,
            ),
        },
{
    let (start, end) = name_span(path);
    let after: usize = after_last(path, start, end, 46);
    let ghost name = path@.subrange(start as int, end as int);
    if after - start <= 1 {
        (start, None, end)
    } else {
        assert(name.skip(after - start) =~= path@.subrange(after as int, end as int));
        assert(name.take(after - 1 - start) =~= path@.subrange(start as int, after - 1));
        (start, Some(after - 1), end)
    }
}


/// The last place of a byte holds it, and no later place does; without it there is none.
pub proof fn law_last_place_is_last(s: Seq<u8>, c: u8)
    ensures
        -1 <= last_place(s, c) < s.len(),
        last_place(s, c) >= 0 ==> s[last_place(s, c)] == c,
        forall|k: int| last_place(s, c) < k < s.len() ==> s[k] != c,
    decreases s.len(),
{
    if s.len() > 0 && s.last() != c {
        law_last_place_is_last(s.drop_last(), c);
        assert forall|k: int| last_place(s, c) < k < s.len() implies s[k] != c by {
            if k < s.len() - 1 {
                assert(s[k] == s.drop_last()[k]);
            }
        }
    }
}

/// The name of a file is what stands behind the last slash of its path.
pub proof fn law_name_is_behind_the_last_slash(dir: Seq<u8>, name: Seq<u8>)
    requires
        name.len() > 0,
        forall|k: int| 0 <= k < name.len() ==> name[k] != 47,
        name != seq![46u8],
        name != seq![46u8, 46u8],
    ensures
        file_name(dir + seq![47u8] + name) == name,
        file_name(name) == name,
{
    let path = dir + seq![47u8] + name;
    law_last_place_is_last(path, 47);
    law_last_place_is_last(name, 47);
    let p = last_place(path, 47);
    assert(path[dir.len() as int] == 47);
    if p > dir.len() {
        assert(path[p] == name[p - dir.len() - 1]);
    }
    assert(p == dir.len());
    assert(after_slash(path) =~= name);
    assert(path.last() == name.last());
    assert(last_place(name, 47) == -1) by {
        let q = last_place(name, 47);
        if q >= 0 {
            assert(name[q] != 47);
        }
    }
    assert(after_slash(name) =~= name);
}

/// A slash at the end, or a slash and a dot, changes nothing; a path that ends in two dots
/// has no name.
pub proof fn law_name_of_a_directory(path: Seq<u8>)
    ensures
        file_name(path.push(47)) == file_name(path),
        file_name(path + seq![47u8, 46u8]) == file_name(path),
        file_name(path + seq![47u8, 46u8, 46u8]).len() == 0,
        file_name(Seq::empty()).len() == 0,
{
    assert(path.push(47).drop_last() =~= path);
    assert(path.push(47).last() == 47);
    assert(file_name(path.push(47)) == file_name(path));
    let a = path + seq![47u8, 46u8];
    law_last_place_is_last(a, 47);
    assert(a[path.len() as int] == 47);
    assert(last_place(a, 47) == path.len());
    assert(after_slash(a) =~= seq![46u8]);
    assert(a.drop_last() =~= path.push(47));
    assert(file_name(a) == file_name(a.drop_last()));
    let b = path + seq![47u8, 46u8, 46u8];
    law_last_place_is_last(b, 47);
    assert(b[path.len() as int] == 47);
    assert(last_place(b, 47) == path.len());
    assert(after_slash(b) =~= seq![46u8, 46u8]);
    assert(after_slash(b) != seq![46u8]) by {
        assert(after_slash(b).len() == 2);
    }
    assert(b.last() == 46);
}

/// What stands behind the last dot of a name is its extension, unless nothing stands before
/// that dot.
pub proof fn law_extension_is_behind_the_last_dot(path: Seq<u8>, front: Seq<u8>, ext: Seq<u8>)
    requires
        forall|k: int| 0 <= k < ext.len() ==> ext[k] != 46,
    ensures
        front.len() > 0 && file_name(path) == front + seq![46u8] + ext ==> extension(path) == Some(ext)
            && stem(path) == front,
        file_name(path) == ext || file_name(path) == seq![46u8] + ext ==> extension(path) is None
            && stem(path) == file_name(path),
{
    let name = file_name(path);
    law_last_place_is_last(name, 46);
    let p = last_place(name, 46);
    if name == front + seq![46u8] + ext {
        assert(name[front.len() as int] == 46);
        if p > front.len() {
            assert(name[p] == ext[p - front.len() - 1]);
        }
        assert(name.skip(p + 1) =~= ext);
        assert(name.take(p) =~= front);
    }
    if name == ext && p >= 0 {
        assert(ext[p] != 46);
    }
    if name == seq![46u8] + ext && p > 0 {
        assert(name[p] == ext[p - 1]);
    }
}

} // verus!
