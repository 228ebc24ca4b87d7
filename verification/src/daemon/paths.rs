//! File names and extensions in the paths of the systems that the daemon runs on.
use crate::text::{chars_of, eq_ignore_ascii_case, same_ignoring_ascii_case};
use vstd::prelude::*;

verus! {

/// The systems that the daemon runs on. They differ in how paths are written.
#[derive(Debug, Clone, Copy, PartialEq, Eq, Structural)]
pub enum Platform {
    MacOs,
    Linux,
    Windows,
}

/// The characters that a text is cut at.
#[derive(Debug, Clone, Copy, PartialEq, Eq, Structural)]
pub enum Mark {
    Dot,
    Slash,
    Backslash,
    EitherSlash,
}

/// Whether a text is cut at a character.
pub open spec fn is_mark(c: char, m: Mark) -> bool {
    match m {
        Mark::Dot => c == '.',
        Mark::Slash => c == '/',
        Mark::Backslash => c == '\\',
        Mark::EitherSlash => c == '/' || c == '\\',
    }
}

/// The part of a text behind the last mark; the whole text where there is none.
pub open spec fn after_last(s: Seq<char>, m: Mark) -> Seq<char>
    decreases s.len(),
{
    if s.len() == 0 || is_mark(s.last(), m) {
        Seq::empty()
    } else {
        after_last(s.drop_last(), m).push(s.last())
    }
}

/// Where the part of a text that begins at `from` ends: at the next mark, or with the
/// text.
pub open spec fn part_end(s: Seq<char>, from: int, m: Mark) -> int
    decreases s.len() - from,
{
    if from >= s.len() || is_mark(s[from], m) {
        from
    } else {
        part_end(s, from + 1, m)
    }
}

/// Whether a drive stands in a text: a letter and a colon.
pub open spec fn drive_at(s: Seq<char>, i: int) -> bool {
    i + 1 < s.len() && ('a' <= s[i] <= 'z' || 'A' <= s[i] <= 'Z') && s[i + 1] == ':'
}

/// Whether a text has a slash of either kind at a place.
pub open spec fn slash_at(s: Seq<char>, i: int) -> bool {
    i < s.len() && is_mark(s[i], Mark::EitherSlash)
}

/// Whether a Windows path is verbatim, so that only backslashes separate its parts.
pub open spec fn is_verbatim(s: Seq<char>) -> bool {
    s.len() >= 4 && s[0] == '\\' && s[1] == '\\' && s[2] == '?' && s[3] == '\\'
}

/// Where the prefix of a Windows path ends: the drive of `C:\x`, the server and share of
/// `\\server\share\x`, the device of `\\.\device`, and what stands for these in a verbatim
/// path, as in `\\?\C:\x`, `\\?\UNC\server\share\x` and `\\?\name\x`.
pub open spec fn prefix_end(s: Seq<char>) -> int {
    if is_verbatim(s) {
        if s.len() >= 8 && s[4] == 'U' && s[5] == 'N' && s[6] == 'C' && slash_at(s, 7) {
            let server = part_end(s, 8, Mark::Backslash);
            let share = part_end(s, server + 1, Mark::Backslash);
            if server < s.len() && share > server + 1 {
                share
            } else {
                server
            }
        } else if drive_at(s, 4) && (s.len() == 6 || slash_at(s, 6)) {
            6
        } else {
            part_end(s, 4, Mark::Backslash)
        }
    } else if slash_at(s, 0) && slash_at(s, 1) {
        if s.len() >= 4 && s[2] == '.' && slash_at(s, 3) {
            part_end(s, 4, Mark::EitherSlash)
        } else {
            let server = part_end(s, 2, Mark::EitherSlash);
            let share = part_end(s, server + 1, Mark::EitherSlash);
            if server > 2 && server < s.len() && share > server + 1 {
                share
            } else {
                0
            }
        }
    } else if drive_at(s, 0) {
        2
    } else {
        0
    }
}

/// Where the names of a Windows path begin: behind its prefix and the slash that makes
/// it absolute.
pub open spec fn names_start(s: Seq<char>) -> int {
    if slash_at(s, prefix_end(s)) {
        prefix_end(s) + 1
    } else {
        prefix_end(s)
    }
}

/// The last name in a row of names: marks at the end do not count, nor do parts that
/// are a single dot, and a row that ends in two dots has none. In verbatim paths, which
/// only backslashes cut, a single dot counts and is no name.
pub open spec fn last_name(path: Seq<char>, m: Mark) -> Option<Seq<char>>
    decreases path.len(),
{
    if path.len() == 0 {
        None
    } else {
        let name = after_last(path, m);
        if is_mark(path.last(), m) {
            last_name(path.drop_last(), m)
        } else if name == seq!['.'] {
            if m == Mark::Backslash || path.len() == 1 {
                None
            } else {
                last_name(path.drop_last(), m)
            }
        } else if name == seq!['.', '.'] {
            None
        } else {
            Some(name)
        }
    }
}

/// The last name in a path.
pub open spec fn file_name(path: Seq<char>, p: Platform) -> Option<Seq<char>> {
    match p {
        Platform::Windows => last_name(
            path.skip(names_start(path)),
            if is_verbatim(path) {
                Mark::Backslash
            } else {
                Mark::EitherSlash
            },
        ),
        _ => last_name(path, Mark::Slash),
    }
}

/// What stands behind the last dot of a name, unless that dot opens the name.
pub open spec fn extension_of(name: Seq<char>) -> Option<Seq<char>> {
    let ext = after_last(name, Mark::Dot);
    if ext.len() + 1 >= name.len() {
        None
    } else {
        Some(ext)
    }
}

/// The extension of a path's last name.
pub open spec fn path_extension(path: Seq<char>, p: Platform) -> Option<Seq<char>> {
    match file_name(path, p) {
        Some(name) => extension_of(name),
        None => None,
    }
}

/// Whether a path's extension is this one, ASCII case ignored.
pub open spec fn has_extension(path: Seq<char>, ext: Seq<char>, p: Platform) -> bool {
    path_extension(path, p) matches Some(e) && same_ignoring_ascii_case(e, ext)
}

proof fn lemma_after_last(s: Seq<char>, m: Mark)
    ensures
        after_last(s, m).len() <= s.len(),
        after_last(s, m) == s.skip(s.len() - after_last(s, m).len()),
    decreases s.len(),
{
    if s.len() > 0 && !is_mark(s.last(), m) {
        lemma_after_last(s.drop_last(), m);
        let t = s.drop_last();
        let n = after_last(t, m).len();
        assert(after_last(s, m) == s.skip(s.len() - (n + 1)));
    } else {
        assert(s.skip(s.len() as int) == Seq::<char>::empty());
    }
}

/// Whether a text is cut at a character.
fn marks(c: char, m: Mark) -> (r: bool)
    ensures
        r == is_mark(c, m),
{
    match m {
        Mark::Dot => c == '.',
        Mark::Slash => c == '/',
        Mark::Backslash => c == '\\',
        Mark::EitherSlash => c == '/' || c == '\\',
    }
}

/// How many of the first `end` characters stand behind the last mark among them.
fn tail_length(v: &Vec<char>, end: usize, m: Mark) -> (r: usize)
    requires
        end <= v@.len(),
    ensures
        r as nat == after_last(v@.take(end as int), m).len(),
        r <= end,
{
    let mut n: usize = 0;
    while n < end && !marks(v[end - 1 - n], m)
        invariant
            n <= end <= v@.len(),
            after_last(v@.take(end as int), m).len() == n + after_last(
                v@.take(end - n),
                m,
            ).len(),
        decreases end - n,
    {
        assert(v@.take(end - n).drop_last() == v@.take(end - n - 1));
        n = n + 1;
    }
    n
}

/// Where the part of a text that begins at `from` ends.
fn end_of_part(v: &Vec<char>, from: usize, m: Mark) -> (r: usize)
    requires
        from <= v@.len(),
    ensures
        r as int == part_end(v@, from as int, m),
        from <= r <= v@.len(),
{
    let mut i: usize = from;
    while i < v.len() && !marks(v[i], m)
        invariant
            from <= i <= v@.len(),
            part_end(v@, from as int, m) == part_end(v@, i as int, m),
        decreases v@.len() - i,
    {
        i = i + 1;
    }
    i
}

/// Whether a drive stands in a text.
fn has_drive(v: &Vec<char>, i: usize) -> (r: bool)
    requires
        i <= v@.len(),
    ensures
        r == drive_at(v@, i as int),
{
    i < v.len() && i + 1 < v.len() && (('a' <= v[i] && v[i] <= 'z') || ('A' <= v[i] && v[i] <= 'Z'))
        && v[i + 1] == ':'
}

/// Whether a text has a slash of either kind at a place.
fn has_slash(v: &Vec<char>, i: usize) -> (r: bool)
    ensures
        r == slash_at(v@, i as int),
{
    i < v.len() && marks(v[i], Mark::EitherSlash)
}

/// Whether a Windows path is verbatim.
fn verbatim(v: &Vec<char>) -> (r: bool)
    ensures
        r == is_verbatim(v@),
{
    v.len() >= 4 && v[0] == '\\' && v[1] == '\\' && v[2] == '?' && v[3] == '\\'
}

/// Where a server and the share behind it end; the share may be missing.
fn end_of_share(v: &Vec<char>, from: usize, m: Mark) -> (r: (usize, Option<usize>))
    requires
        from <= v@.len(),
    ensures
        ({
            let server = part_end(v@, from as int, m);
            let share = part_end(v@, server + 1, m);
            &&& r.0 as int == server
            &&& from <= server <= v@.len()
            &&& r.1 == (if server < v@.len() && share > server + 1 {
                Some(share as usize)
            } else {
                None
            })
            &&& r.1 matches Some(s) ==> s as int == share && share <= v@.len()
        }),
{
    let server = end_of_part(v, from, m);
    if server < v.len() {
        let share = end_of_part(v, server + 1, m);
        if share > server + 1 {
            return (server, Some(share));
        }
    }
    (server, None)
}

/// Where the prefix of a Windows path ends.
fn end_of_prefix(v: &Vec<char>) -> (r: usize)
    ensures
        r as int == prefix_end(v@),
        r <= v@.len(),
{
    if verbatim(v) {
        if v.len() >= 8 && v[4] == 'U' && v[5] == 'N' && v[6] == 'C' && has_slash(v, 7) {
            let (server, share) = end_of_share(v, 8, Mark::Backslash);
            match share {
                Some(end) => end,
                None => server,
            }
        } else if has_drive(v, 4) && (v.len() == 6 || has_slash(v, 6)) {
            6
        } else {
            end_of_part(v, 4, Mark::Backslash)
        }
    } else if has_slash(v, 0) && has_slash(v, 1) {
        if v.len() >= 4 && v[2] == '.' && has_slash(v, 3) {
            end_of_part(v, 4, Mark::EitherSlash)
        } else {
            let (server, share) = end_of_share(v, 2, Mark::EitherSlash);
            match share {
                Some(end) => if server > 2 {
                    end
                } else {
                    0
                },
                None => 0,
            }
        }
    } else if has_drive(v, 0) {
        2
    } else {
        0
    }
}

/// The last name in a row of names.
fn last_name_of(v: &Vec<char>, m: Mark) -> (r: Option<Vec<char>>)
    ensures
        r is Some == last_name(v@, m) is Some,
        r matches Some(n) ==> n@ == last_name(v@, m)->Some_0,
{
    let mut end: usize = v.len();
    assert(v@.take(v@.len() as int) == v@);
    while end > 0
        invariant
            end <= v@.len(),
            last_name(v@, m) == last_name(v@.take(end as int), m),
        decreases end,
    {
        let ghost p = v@.take(end as int);
        assert(p.drop_last() == v@.take(end - 1));
        if marks(v[end - 1], m) {
            end = end - 1;
        } else {
            let n = tail_length(v, end, m);
            let ghost name = after_last(p, m);
            proof {
                lemma_after_last(p, m);
                assert(n >= 1);
                assert(name[n - 1] == p[end - 1]);
            }
            if n == 1 && v[end - 1] == '.' {
                assert(name == seq!['.']);
                if m == Mark::Backslash || end == 1 {
                    return None;
                }
                end = end - 1;
            } else if n == 2 && v[end - 1] == '.' && v[end - 2] == '.' {
                assert(name[0] == p[end - 2]);
                assert(name == seq!['.', '.']);
                return None;
            } else {
                assert(name != seq!['.']) by {
                    if name == seq!['.'] {
                        assert(name[0] == '.');
                    }
                }
                assert(name != seq!['.', '.']) by {
                    if name == seq!['.', '.'] {
                        assert(name[0] == '.' && name[1] == '.');
                        assert(p[end - 2] == name[0]);
                    }
                }
                let out = crate::text::slice_of(v, end - n, end);
                assert(out@ == name);
                return Some(out);
            }
        }
    }
    None
}

/// The last name in a path.
pub fn name_of(path: &str, platform: Platform) -> (r: Option<Vec<char>>)
    ensures
        r is Some == file_name(path@, platform) is Some,
        r matches Some(n) ==> n@ == file_name(path@, platform)->Some_0,
{
    let v = chars_of(path);
    match platform {
        Platform::Windows => {
            let prefix = end_of_prefix(&v);
            let start: usize = if has_slash(&v, prefix) {
                prefix + 1
            } else {
                prefix
            };
            let names = crate::text::slice_of(&v, start, v.len());
            assert(names@ == path@.skip(names_start(path@)));
            if verbatim(&v) {
                last_name_of(&names, Mark::Backslash)
            } else {
                last_name_of(&names, Mark::EitherSlash)
            }
        },
        _ => last_name_of(&v, Mark::Slash),
    }
}

/// A name without its extension.
pub fn stem(name: &Vec<char>) -> (r: Vec<char>)
    ensures
        r@ == (match extension_of(name@) {
            Some(ext) => name@.take(name@.len() - ext.len() - 1),
            None => name@,
        }),
{
    let n = tail_length(name, name.len(), Mark::Dot);
    assert(name@.take(name@.len() as int) == name@);
    proof {
        lemma_after_last(name@, Mark::Dot);
    }
    let end: usize = if name.len() - n <= 1 {
        name.len()
    } else {
        name.len() - n - 1
    };
    let r = crate::text::slice_of(name, 0, end);
    assert(r@ == name@.take(end as int));
    r
}

/// Whether a path's extension is this one, ASCII case ignored.
pub fn extension_is(path: &str, ext: &str, platform: Platform) -> (r: bool)
    ensures
        r == has_extension(path@, ext@, platform),
{
    match name_of(path, platform) {
        Some(name) => {
            let n = tail_length(&name, name.len(), Mark::Dot);
            assert(name@.take(name@.len() as int) == name@);
            proof {
                lemma_after_last(name@, Mark::Dot);
            }
            if name.len() - n <= 1 {
                return false;
            }
            let tail = crate::text::slice_of(&name, name.len() - n, name.len());
            assert(tail@ == after_last(name@, Mark::Dot));
            eq_ignore_ascii_case(&tail, &chars_of(ext))
        },
        None => false,
    }
}

/// What stands behind the last mark of a text: it holds no mark, and one stands before it
/// unless it is the whole text.
pub proof fn behind_the_last_mark(s: Seq<char>, m: Mark, tail: Seq<char>, c: char)
    requires
        is_mark(c, m),
        forall|i: int| 0 <= i < tail.len() ==> !is_mark(#[trigger] tail[i], m),
    ensures
        after_last(tail, m) == tail,
        after_last(s.push(c) + tail, m) == tail,
    decreases tail.len(),
{
    let t = s.push(c) + tail;
    if tail.len() > 0 {
        let init = tail.drop_last();
        assert forall|i: int| 0 <= i < init.len() implies !is_mark(#[trigger] init[i], m) by {
            assert(init[i] == tail[i]);
        }
        behind_the_last_mark(s, m, init, c);
        assert(t.drop_last() == s.push(c) + init);
        assert(!is_mark(tail[tail.len() - 1], m));
        assert(init.push(tail.last()) == tail);
    } else {
        assert(t.last() == c);
    }
}

/// Marks are dots, slashes and backslashes, as their names say.
pub proof fn marks_are_as_named(c: char)
    ensures
        is_mark(c, Mark::Dot) <==> c == '.',
        is_mark(c, Mark::Slash) <==> c == '/',
        is_mark(c, Mark::Backslash) <==> c == '\\',
        is_mark(c, Mark::EitherSlash) <==> c == '/' || c == '\\',
{
}

/// Whether a text can be a file's name: it holds neither slash, and is not one of the
/// dots that stand for directories.
pub open spec fn is_plain_name(name: Seq<char>) -> bool {
    &&& name.len() > 0
    &&& forall|i: int| 0 <= i < name.len() ==> (#[trigger] name[i]) != '/' && name[i] != '\\'
    &&& name != seq!['.']
    &&& name != seq!['.', '.']
}

proof fn lemma_last_name(front: Seq<char>, name: Seq<char>, m: Mark)
    requires
        is_plain_name(name),
        m != Mark::Dot,
        front.len() == 0 || is_mark(front.last(), m),
    ensures
        last_name(front + name, m) == Some(name),
{
    let t = front + name;
    assert(t.last() == name[name.len() - 1]);
    assert(!is_mark(t.last(), m)) by {
        assert(name[name.len() - 1] != '/' && name[name.len() - 1] != '\\');
    }
    assert forall|i: int| 0 <= i < name.len() implies !is_mark(#[trigger] name[i], m) by {
        assert(name[i] != '/' && name[i] != '\\');
    }
    if front.len() == 0 {
        assert(t == name);
        lemma_unmarked(name, m);
    } else {
        behind_the_last_mark(front.drop_last(), m, name, front.last());
        assert(front.drop_last().push(front.last()) == front);
    }
}

proof fn lemma_unmarked(tail: Seq<char>, m: Mark)
    requires
        forall|i: int| 0 <= i < tail.len() ==> !is_mark(#[trigger] tail[i], m),
    ensures
        after_last(tail, m) == tail,
    decreases tail.len(),
{
    if tail.len() > 0 {
        let init = tail.drop_last();
        assert forall|i: int| 0 <= i < init.len() implies !is_mark(#[trigger] init[i], m) by {
            assert(init[i] == tail[i]);
        }
        lemma_unmarked(init, m);
        assert(!is_mark(tail[tail.len() - 1], m));
        assert(init.push(tail.last()) == tail);
    }
}

/// The name of a file is what stands behind the last slash of its path. On Windows the
/// same holds of a path on a drive, with slashes of either kind.
pub proof fn file_is_named_last(dir: Seq<char>, name: Seq<char>, p: Platform, drive: char, c: char)
    requires
        is_plain_name(name),
        'a' <= drive <= 'z' || 'A' <= drive <= 'Z',
        c == '/' || c == '\\',
    ensures
        p != Platform::Windows ==> file_name(dir.push('/') + name, p) == Some(name),
        p != Platform::Windows ==> file_name(name, p) == Some(name),
        file_name(seq![drive, ':'] + dir.push(c) + name, Platform::Windows) == Some(name),
{
    if p != Platform::Windows {
        lemma_last_name(dir.push('/'), name, Mark::Slash);
        lemma_last_name(Seq::empty(), name, Mark::Slash);
        assert(Seq::<char>::empty() + name == name);
    }
    let w = seq![drive, ':'] + dir.push(c) + name;
    assert(w[0] == drive && w[1] == ':');
    assert(prefix_end(w) == 2);
    let k = names_start(w);
    let front = (seq![drive, ':'] + dir.push(c)).skip(k);
    let n = dir.len() as int + 3;
    assert((seq![drive, ':'] + dir.push(c)).len() == n);
    assert(w.skip(k) == front + name);
    if front.len() > 0 {
        assert(front.last() == (seq![drive, ':'] + dir.push(c))[n - 1]);
        assert(front.last() == c);
    }
    lemma_last_name(front, name, Mark::EitherSlash);
}

/// A file's extension is what stands behind the last dot of its name, where something
/// stands before that dot. So a path has an extension in whatever case it is written.
pub proof fn extension_stands_behind_the_last_dot(
    dir: Seq<char>,
    stem: Seq<char>,
    ext: Seq<char>,
    p: Platform,
)
    requires
        p != Platform::Windows,
        stem.len() > 0,
        is_plain_name(stem.push('.') + ext),
        forall|i: int| 0 <= i < ext.len() ==> (#[trigger] ext[i]) != '.',
    ensures
        extension_of(stem.push('.') + ext) == Some(ext),
        path_extension(dir.push('/') + (stem.push('.') + ext), p) == Some(ext),
        forall|other: Seq<char>| #[trigger]
            has_extension(dir.push('/') + (stem.push('.') + ext), other, p)
                <==> same_ignoring_ascii_case(ext, other),
{
    let name = stem.push('.') + ext;
    behind_the_last_mark(stem, Mark::Dot, ext, '.');
    file_is_named_last(dir, name, p, 'C', '/');
}

/// A name without a dot, or with one in front alone, has no extension.
pub proof fn dotless_names_have_no_extension(name: Seq<char>)
    requires
        forall|i: int| 1 <= i < name.len() ==> (#[trigger] name[i]) != '.',
    ensures
        extension_of(name) is None,
{
    if name.len() > 0 && name[0] == '.' {
        let tail = name.drop_first();
        assert forall|i: int| 0 <= i < tail.len() implies !is_mark(
            #[trigger] tail[i],
            Mark::Dot,
        ) by {
            assert(tail[i] == name[i + 1]);
        }
        behind_the_last_mark(Seq::empty(), Mark::Dot, tail, '.');
        assert(Seq::<char>::empty().push('.') + tail == name);
    } else {
        assert forall|i: int| 0 <= i < name.len() implies !is_mark(
            #[trigger] name[i],
            Mark::Dot,
        ) by {
            assert(name[i] != '.');
        }
        lemma_unmarked(name, Mark::Dot);
    }
}

/// Slashes at the end of a path do not count, nor does a dot that stands alone there; a
/// path that ends in two dots names no file.
pub proof fn ends_of_paths_do_not_count(path: Seq<char>, p: Platform)
    requires
        p != Platform::Windows,
    ensures
        file_name(path.push('/'), p) == file_name(path, p),
        path.len() > 0 ==> file_name(path.push('/').push('.'), p) == file_name(path, p),
        file_name(path.push('/').push('.').push('.'), p) is None,
        file_name(Seq::empty(), p) is None,
{
    let m = Mark::Slash;
    let a = path.push('/');
    assert(a.drop_last() == path);
    let b = a.push('.');
    assert(b.drop_last() == a);
    assert(after_last(b, m) == seq!['.']) by {
        assert(after_last(a, m) == Seq::<char>::empty());
    }
    let c = b.push('.');
    assert(c.drop_last() == b);
    assert(after_last(c, m) == seq!['.', '.']);
    assert(seq!['.', '.'] != seq!['.']) by {
        assert(seq!['.', '.'].len() != seq!['.'].len());
    }
}

proof fn lemma_part_end(s: Seq<char>, from: int, to: int, m: Mark)
    requires
        0 <= from <= to <= s.len(),
        forall|i: int| from <= i < to ==> !is_mark(#[trigger] s[i], m),
        to < s.len() ==> is_mark(s[to], m),
    ensures
        part_end(s, from, m) == to,
    decreases to - from,
{
    if from < to {
        lemma_part_end(s, from + 1, to, m);
    }
}

/// Whether a text can be the name of a server or a share.
pub open spec fn is_plain_part(s: Seq<char>) -> bool {
    &&& s.len() > 0
    &&& forall|i: int| 0 <= i < s.len() ==> (#[trigger] s[i]) != '/' && s[i] != '\\'
    &&& s != seq!['.']
    &&& s != seq!['?']
}

/// On Windows a file on a share is named behind the last slash too, but the server and
/// the share themselves name none.
pub proof fn file_on_a_share_is_named_last(
    server: Seq<char>,
    share: Seq<char>,
    dir: Seq<char>,
    name: Seq<char>,
)
    requires
        is_plain_part(server),
        is_plain_part(share),
        is_plain_name(name),
    ensures
        ({
            let root = seq!['\\', '\\'] + server + seq!['\\'] + share;
            &&& file_name(root, Platform::Windows) is None
            &&& file_name(root.push('\\') + name, Platform::Windows) == Some(name)
            &&& file_name(root.push('\\') + dir.push('\\') + name, Platform::Windows) == Some(name)
        }),
{
    let root = seq!['\\', '\\'] + server + seq!['\\'] + share;
    lemma_share_prefix(server, share, Seq::empty());
    assert(root + Seq::<char>::empty() == root);
    assert(root.skip(root.len() as int) == Seq::<char>::empty());
    assert(last_name(Seq::empty(), Mark::EitherSlash) is None);
    let a = root.push('\\') + name;
    lemma_share_prefix(server, share, seq!['\\'] + name);
    assert(root + (seq!['\\'] + name) == a);
    assert(a[root.len() as int] == '\\');
    assert(a.skip(root.len() as int + 1) == Seq::<char>::empty() + name);
    lemma_last_name(Seq::empty(), name, Mark::EitherSlash);
    let b = root.push('\\') + dir.push('\\') + name;
    let rest = seq!['\\'] + dir.push('\\') + name;
    lemma_share_prefix(server, share, rest);
    assert(root + rest == b);
    assert(b[root.len() as int] == '\\');
    assert(b.skip(root.len() as int + 1) == dir.push('\\') + name);
    lemma_last_name(dir.push('\\'), name, Mark::EitherSlash);
}

proof fn lemma_share_prefix(server: Seq<char>, share: Seq<char>, rest: Seq<char>)
    requires
        is_plain_part(server),
        is_plain_part(share),
        rest.len() == 0 || rest[0] == '\\',
    ensures
        ({
            let root = seq!['\\', '\\'] + server + seq!['\\'] + share;
            prefix_end(root + rest) == root.len() && !is_verbatim(root + rest)
        }),
{
    let root = seq!['\\', '\\'] + server + seq!['\\'] + share;
    let s = root + rest;
    let a = 2 + server.len() as int;
    let b = a + 1 + share.len() as int;
    assert(s[0] == '\\' && s[1] == '\\' && s[2] == server[0]);
    assert forall|i: int| 2 <= i < a implies !is_mark(#[trigger] s[i], Mark::EitherSlash) by {
        assert(s[i] == server[i - 2]);
        assert(server[i - 2] != '/' && server[i - 2] != '\\');
    }
    assert(s[a] == '\\');
    assert forall|i: int| a + 1 <= i < b implies !is_mark(#[trigger] s[i], Mark::EitherSlash) by {
        assert(s[i] == share[i - a - 1]);
        assert(share[i - a - 1] != '/' && share[i - a - 1] != '\\');
    }
    if b < s.len() {
        assert(s[b] == rest[0]);
    }
    lemma_part_end(s, 2, a, Mark::EitherSlash);
    lemma_part_end(s, a + 1, b, Mark::EitherSlash);
    if server.len() == 1 {
        assert(server[0] != '.') by {
            if server[0] == '.' {
                assert(server == seq!['.']);
            }
        }
        assert(server[0] != '?') by {
            if server[0] == '?' {
                assert(server == seq!['?']);
            }
        }
    } else {
        assert(s[3] == server[1]);
        assert(server[1] != '/' && server[1] != '\\');
    }
}

/// A file in a verbatim path or on a device is named last too, and there the drive, or the
/// device, names none.
pub proof fn file_in_a_verbatim_path_is_named_last(
    drive: char,
    device: Seq<char>,
    dir: Seq<char>,
    name: Seq<char>,
)
    requires
        'a' <= drive <= 'z' || 'A' <= drive <= 'Z',
        is_plain_part(device),
        is_plain_name(name),
    ensures
        ({
            let root = seq!['\\', '\\', '?', '\\', drive, ':'];
            &&& file_name(root, Platform::Windows) is None
            &&& file_name(root.push('\\') + dir.push('\\') + name, Platform::Windows) == Some(name)
        }),
        ({
            let root = seq!['\\', '\\', '.', '\\'] + device;
            &&& file_name(root, Platform::Windows) is None
            &&& file_name(root.push('\\') + dir.push('\\') + name, Platform::Windows) == Some(name)
        }),
{
    let m = Mark::EitherSlash;
    let a = seq!['\\', '\\', '?', '\\', drive, ':'];
    assert(is_verbatim(a) && drive_at(a, 4) && prefix_end(a) == 6);
    assert(a.skip(6) == Seq::<char>::empty());
    let b = a.push('\\') + dir.push('\\') + name;
    assert(b[0] == '\\' && b[1] == '\\' && b[2] == '?' && b[3] == '\\' && b[4] == drive && b[5] == ':'
        && b[6] == '\\');
    assert(is_verbatim(b) && drive_at(b, 4) && slash_at(b, 6));
    assert(prefix_end(b) == 6);
    assert(b.skip(7) == dir.push('\\') + name);
    lemma_last_name(dir.push('\\'), name, Mark::Backslash);
    let c = seq!['\\', '\\', '.', '\\'] + device;
    let n = c.len() as int;
    assert forall|i: int| 4 <= i < n implies !is_mark(#[trigger] c[i], m) by {
        assert(c[i] == device[i - 4]);
        assert(device[i - 4] != '/' && device[i - 4] != '\\');
    }
    assert(c[0] == '\\' && c[1] == '\\' && c[2] == '.' && c[3] == '\\');
    lemma_part_end(c, 4, n, m);
    assert(prefix_end(c) == n);
    assert(c.skip(n) == Seq::<char>::empty());
    let d = c.push('\\') + dir.push('\\') + name;
    assert forall|i: int| 4 <= i < n implies !is_mark(#[trigger] d[i], m) by {
        assert(d[i] == device[i - 4]);
        assert(device[i - 4] != '/' && device[i - 4] != '\\');
    }
    assert(d[0] == '\\' && d[1] == '\\' && d[2] == '.' && d[3] == '\\' && d[n] == '\\');
    lemma_part_end(d, 4, n, m);
    assert(prefix_end(d) == n);
    assert(d.skip(n + 1) == dir.push('\\') + name);
    lemma_last_name(dir.push('\\'), name, m);
}

} // verus!
