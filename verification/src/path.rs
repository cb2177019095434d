use crate::text;
use vstd::prelude::*;
use vstd::slice::slice_subrange;
use vstd::string::*;

verus! {

/// Where the text after the last slash of `path` starts.
pub open spec fn after_last_slash(path: Seq<char>) -> nat
    decreases path.len(),
{
    if path.len() == 0 || path.last() == '/' {
        path.len()
    } else {
        after_last_slash(path.drop_last())
    }
}

/// Where the file name of `path` starts and ends. Slashes and `.` components
/// after it do not count; there is none in a path that ends in `..`, in the
/// root and in an empty path.
pub open spec fn file_name(path: Seq<char>) -> Option<(nat, nat)>
    decreases path.len(),
{
    let start = after_last_slash(path);
    let name = path.skip(start as int);
    if 0 < start <= path.len() && (name.len() == 0 || name == seq!['.']) {
        file_name(path.take(start - 1))
    } else if name.len() == 0 || name == seq!['.'] || name == seq!['.', '.'] {
        None
    } else {
        Some((start, path.len()))
    }
}

/// Where the last dot of `name` stands, or its length where there is none.
pub open spec fn last_dot(name: Seq<char>) -> nat
    decreases name.len(),
{
    if name.len() == 0 {
        0
    } else if name.last() == '.' {
        (name.len() - 1) as nat
    } else {
        let i = last_dot(name.drop_last());
        if i == name.len() - 1 {
            name.len()
        } else {
            i
        }
    }
}

/// How much of a file name stands before its extension. A dot at the very start
/// begins a hidden file's name, not an extension.
pub open spec fn stem_length(name: Seq<char>) -> nat {
    if last_dot(name) == 0 {
        name.len()
    } else {
        last_dot(name)
    }
}

/// `path` with `extension` in the place of its file name's extension.
pub open spec fn replaced_extension(path: Seq<char>, extension: Seq<char>) -> Seq<char> {
    match file_name(path) {
        None => path,
        Some((start, end)) => path.take(
            (start + stem_length(path.subrange(start as int, end as int))) as int,
        ) + seq!['.'] + extension,
    }
}

/// `base` with `name`, which does not start with a slash, below it.
pub open spec fn below(base: Seq<char>, name: Seq<char>) -> Seq<char> {
    if base.len() == 0 || base.last() == '/' {
        base + name
    } else {
        base + seq!['/'] + name
    }
}

proof fn lemma_after_last_slash(path: Seq<char>)
    ensures
        after_last_slash(path) <= path.len(),
        after_last_slash(path) > 0 ==> path[after_last_slash(path) - 1] == '/',
        forall|i: int| after_last_slash(path) <= i < path.len() ==> path[i] != '/',
    decreases path.len(),
{
    if path.len() > 0 && path.last() != '/' {
        let t = path.drop_last();
        lemma_after_last_slash(t);
        assert forall|i: int| after_last_slash(path) <= i < path.len() implies path[i] != '/' by {
            if i < t.len() {
                assert(t[i] == path[i]);
            }
        }
    }
}

proof fn lemma_last_dot(name: Seq<char>)
    ensures
        last_dot(name) <= name.len(),
        last_dot(name) < name.len() ==> name[last_dot(name) as int] == '.',
        forall|i: int| last_dot(name) < i < name.len() ==> name[i] != '.',
        last_dot(name) == name.len() ==> forall|i: int| 0 <= i < name.len() ==> name[i] != '.',
    decreases name.len(),
{
    if name.len() > 0 && name.last() != '.' {
        let t = name.drop_last();
        lemma_last_dot(t);
        assert forall|i: int| last_dot(t) < i < name.len() implies name[i] != '.' by {
            if i < t.len() {
                assert(t[i] == name[i]);
            }
        }
        if last_dot(t) == t.len() {
            assert forall|i: int| 0 <= i < name.len() implies name[i] != '.' by {
                if i < t.len() {
                    assert(t[i] == name[i]);
                }
            }
        }
    }
}

proof fn lemma_file_name(path: Seq<char>)
    ensures
        file_name(path) matches Some((start, end)) ==> start < end <= path.len() && (start > 0
            ==> path[start - 1] == '/') && (forall|i: int| start <= i < end ==> path[i] != '/'),
    decreases path.len(),
{
    lemma_after_last_slash(path);
    let start = after_last_slash(path);
    let name = path.skip(start as int);
    if 0 < start <= path.len() && (name.len() == 0 || name == seq!['.']) {
        let t = path.take(start - 1);
        lemma_file_name(t);
        if let Some((from, to)) = file_name(t) {
            assert(from > 0 ==> t[from - 1] == path[from - 1]);
            assert forall|i: int| from <= i < to implies path[i] != '/' by {
                assert(t[i] == path[i]);
            }
        }
    }
}

fn find_after_last_slash(path: &[char], len: usize) -> (start: usize)
    requires
        len <= path@.len(),
    ensures
        start == after_last_slash(path@.take(len as int)),
        start <= len,
{
    let mut start: usize = len;
    while start > 0 && path[start - 1] != '/'
        invariant
            start <= len <= path@.len(),
            after_last_slash(path@.take(len as int)) == after_last_slash(path@.take(start as int)),
        decreases start,
    {
        proof {
            assert(path@.take(start as int).drop_last() =~= path@.take(start - 1));
        }
        start = start - 1;
    }
    start
}

fn find_file_name(path: &[char]) -> (r: Option<(usize, usize)>)
    ensures
        r is Some <==> file_name(path@) is Some,
        r matches Some((start, end)) ==> file_name(path@) == Some((start as nat, end as nat))
            && start < end <= path@.len(),
{
    let mut end: usize = path.len();
    proof {
        assert(path@.take(end as int) =~= path@);
        lemma_file_name(path@);
    }
    loop
        invariant
            end <= path@.len(),
            file_name(path@) == file_name(path@.take(end as int)),
            file_name(path@) matches Some((start, end)) ==> start < end <= path@.len(),
        decreases end,
    {
        let start: usize = find_after_last_slash(path, end);
        let ghost name = path@.take(end as int).skip(start as int);
        let n: usize = end - start;
        let dot = n == 1 && path[start] == '.';
        proof {
            assert(name.len() == n);
            assert(n > 0 ==> name[0] == path@[start as int]);
            assert(dot ==> name =~= seq!['.']);
            assert(name == seq!['.'] ==> name[0] == '.');
        }
        if start > 0 && (n == 0 || dot) {
            proof {
                assert(path@.take(end as int).take(start - 1) =~= path@.take(start - 1));
            }
            end = start - 1;
        } else {
            let dots = n == 2 && path[start] == '.' && path[start + 1] == '.';
            proof {
                assert(n > 1 ==> name[1] == path@[start + 1]);
                assert(dots ==> name =~= seq!['.', '.']);
                assert(name == seq!['.', '.'] ==> name[0] == '.' && name[1] == '.');
            }
            if n == 0 || dot || dots {
                return None;
            }
            return Some((start, end));
        }
    }
}

fn find_stem_length(name: &[char]) -> (n: usize)
    ensures
        n == stem_length(name@),
        n <= name@.len(),
{
    let mut i: usize = name.len();
    proof {
        assert(name@.take(i as int) =~= name@);
        lemma_last_dot(name@);
    }
    while i > 0 && name[i - 1] != '.'
        invariant
            i <= name@.len(),
            forall|j: int| i <= j < name@.len() ==> name@[j] != '.',
        decreases i,
    {
        i = i - 1;
    }
    if i <= 1 {
        name.len()
    } else {
        i - 1
    }
}

/// Give the file that `path` names another extension; a path that names no file
/// stays as it is.
pub fn with_extension(path: &str, extension: &str) -> (r: String)
    ensures
        r@ == replaced_extension(path@, extension@),
{
    let cs = text::chars(path);
    let cs = cs.as_slice();
    match find_file_name(cs) {
        None => text::string(cs),
        Some((start, end)) => {
            let n: usize = start + find_stem_length(slice_subrange(cs, start, end));
            proof {
                assert(cs@.subrange(0, n as int) =~= cs@.take(n as int));
            }
            let mut r = text::string(slice_subrange(cs, 0, n));
            r.push('.');
            r.append(extension);
            assert(r@ =~= replaced_extension(path@, extension@));
            r
        },
    }
}

/// The path of `name` below `base`.
pub fn join(base: &str, name: &str) -> (r: String)
    requires
        name@.len() > 0 ==> name@[0] != '/',
    ensures
        r@ == below(base@, name@),
{
    let cs = text::chars(base);
    let mut r = text::string(cs.as_slice());
    if cs.len() > 0 && cs[cs.len() - 1] != '/' {
        r.push('/');
    }
    r.append(name);
    assert(r@ =~= below(base@, name@));
    r
}

/// The file name of a path that ends in one.
pub(crate) proof fn lemma_simple_file_name(path: Seq<char>, start: nat)
    requires
        start + 2 < path.len(),
        start > 0 ==> path[start - 1] == '/',
        forall|i: int| start <= i < path.len() ==> path[i] != '/',
    ensures
        file_name(path) == Some((start, path.len())),
{
    lemma_after_last_slash(path);
    assert(after_last_slash(path) == start) by {
        if after_last_slash(path) > start {
            assert(path[after_last_slash(path) - 1] == '/');
        }
    }
    assert(path.skip(start as int).len() > 2);
}

/// The stem of a name whose last dot is at `dot`.
pub(crate) proof fn lemma_simple_stem(name: Seq<char>, dot: nat)
    requires
        0 < dot < name.len(),
        name[dot as int] == '.',
        forall|i: int| dot < i < name.len() ==> name[i] != '.',
    ensures
        stem_length(name) == dot,
{
    lemma_last_dot(name);
}

/// A file with another extension stays where it was: in the same directory,
/// with the same name before the extension.
pub proof fn extension_keeps_the_directory(path: Seq<char>, extension: Seq<char>)
    requires
        file_name(path) is Some,
        extension.len() > 0,
        forall|i: int| 0 <= i < extension.len() ==> extension[i] != '/' && extension[i] != '.',
    ensures
        ({
            let r = replaced_extension(path, extension);
            let (start, end) = file_name(path)->0;
            let stem = stem_length(path.subrange(start as int, end as int));
            &&& file_name(r) == Some((start, r.len()))
            &&& r.take(start as int) == path.take(start as int)
            &&& stem_length(r.skip(start as int)) == stem
            &&& r.subrange(start as int, (start + stem) as int) == path.subrange(
                start as int,
                (start + stem) as int,
            )
        }),
{
    lemma_file_name(path);
    let (start, end) = file_name(path)->0;
    let name = path.subrange(start as int, end as int);
    lemma_last_dot(name);
    let stem = stem_length(name);
    let r = replaced_extension(path, extension);
    assert(r.len() == start + stem + 1 + extension.len());
    assert forall|i: int| start <= i < r.len() implies r[i] != '/' by {
        if i < start + stem {
            assert(r[i] == path[i]);
        } else if i > start + stem {
            assert(r[i] == extension[i - start - stem - 1]);
        }
    }
    lemma_after_last_slash(r);
    assert(start > 0 ==> r[start - 1] == path[start - 1]);
    assert(after_last_slash(r) == start);
    let tail = r.skip(start as int);
    assert(tail.len() == stem + 1 + extension.len());
    assert(stem > 0);
    assert(tail.len() >= 3);
    lemma_last_dot(tail);
    assert(tail[stem as int] == '.');
    assert forall|i: int| stem < i < tail.len() implies tail[i] != '.' by {
        assert(tail[i] == extension[i - stem - 1]);
    }
    assert(last_dot(tail) == stem);
}

/// What is put below a directory lies in it: the directory, one slash, the name.
pub proof fn what_is_below_lies_in_the_directory(base: Seq<char>, name: Seq<char>)
    ensures
        base.len() > 0 && base.last() != '/' ==> below(base, name) == base + seq!['/'] + name,
        base.len() > 0 && base.last() == '/' ==> below(base, name) == base + name,
        base.len() == 0 ==> below(base, name) == name,
{
    assert(base.len() == 0 ==> base + name =~= name);
}

/// A file gets the extension that it is given, in the place of the one that it
/// had: `dir/stem.old` becomes `dir/stem.new`, and `dir/stem` becomes
/// `dir/stem.new`.
pub proof fn the_extension_is_replaced(
    dir: Seq<char>,
    stem: Seq<char>,
    old_extension: Seq<char>,
    extension: Seq<char>,
)
    requires
        dir.len() > 0 ==> dir.last() == '/',
        stem.len() > 2,
        text::lacks(stem, '/'),
        text::lacks(stem, '.'),
        text::lacks(old_extension, '/'),
        text::lacks(old_extension, '.'),
    ensures
        replaced_extension(dir + stem + seq!['.'] + old_extension, extension) == dir + stem + seq![
            '.',
        ] + extension,
        replaced_extension(dir + stem, extension) == dir + stem + seq!['.'] + extension,
{
    let (a, b) = (dir + stem + seq!['.'] + old_extension, dir + stem);
    let start = dir.len();
    assert(start > 0 ==> a[start - 1] == dir.last() && b[start - 1] == dir.last());
    assert forall|i: int| start <= i < a.len() implies a[i] != '/' by {
        if i < start + stem.len() {
            assert(a[i] == stem[i - start]);
        } else if i > start + stem.len() {
            assert(a[i] == old_extension[i - start - stem.len() - 1]);
        }
    }
    assert forall|i: int| start <= i < b.len() implies b[i] != '/' by {
        assert(b[i] == stem[i - start]);
    }
    lemma_simple_file_name(a, start);
    lemma_simple_file_name(b, start);
    let name = a.subrange(start as int, a.len() as int);
    assert(name =~= stem + seq!['.'] + old_extension);
    assert forall|i: int| stem.len() < i < name.len() implies name[i] != '.' by {
        assert(name[i] == old_extension[i - stem.len() - 1]);
    }
    lemma_simple_stem(name, stem.len());
    assert(b.subrange(start as int, b.len() as int) =~= stem);
    lemma_last_dot(stem);
    let n = (start + stem.len()) as int;
    assert(a.take(n) =~= dir + stem);
    assert(b.take(n) =~= dir + stem);
}

/// A path that names no file has no extension to replace.
pub proof fn a_path_without_a_file_stays(dir: Seq<char>, extension: Seq<char>)
    ensures
        replaced_extension(Seq::empty(), extension) == Seq::<char>::empty(),
        file_name(dir + seq!['/', '.', '.']) is None,
        replaced_extension(dir + seq!['/', '.', '.'], extension) == dir + seq!['/', '.', '.'],
{
    let path = dir + seq!['/', '.', '.'];
    lemma_after_last_slash(path);
    assert(path[dir.len() as int] == '/');
    assert(after_last_slash(path) == dir.len() + 1) by {
        let i = after_last_slash(path) as int;
        if i > dir.len() + 1 {
            assert(path[i - 1] == '/');
        }
    }
    assert(path.skip(dir.len() as int + 1) =~= seq!['.', '.']);
    assert(path.skip(dir.len() as int + 1) != seq!['.']);
}

} // verus!
