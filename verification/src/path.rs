//! Paths as texts, with `/` between components.
use crate::text::{chars_of, find_last, last_index, lemma_last_index, same, text_of};
use vstd::prelude::*;

verus! {

/// A relative path below a directory.
pub open spec fn below(dir: Seq<char>, file: Seq<char>) -> Seq<char> {
    if dir.len() == 0 || dir.last() == '/' {
        dir + file
    } else {
        dir.push('/') + file
    }
}

/// A path seen from a directory: an absolute one stays what it is.
pub open spec fn resolved(dir: Seq<char>, file: Seq<char>) -> Seq<char> {
    if file.len() > 0 && file[0] == '/' {
        file
    } else {
        below(dir, file)
    }
}

/// A path without slashes at its end.
pub open spec fn without_slashes(s: Seq<char>) -> Seq<char>
    decreases s.len(),
{
    if s.len() > 0 && s.last() == '/' {
        without_slashes(s.drop_last())
    } else {
        s
    }
}

/// What follows the last slash.
pub open spec fn last_component(s: Seq<char>) -> Seq<char> {
    match last_index(s, '/') {
        Some(i) => s.skip(i + 1),
        None => s,
    }
}

/// The name of the file or directory that a path leads to; empty where the path
/// ends in `..` or names nothing.
pub open spec fn file_name(p: Seq<char>) -> Seq<char>
    decreases p.len(),
{
    let q = without_slashes(p);
    let c = last_component(q);
    if c == "."@ && q.len() > 1 && q.len() <= p.len() {
        file_name(q.drop_last())
    } else if c == "."@ || c == ".."@ {
        Seq::empty()
    } else {
        c
    }
}

/// A file name without its extension.
pub open spec fn stem(name: Seq<char>) -> Seq<char> {
    match last_index(name, '.') {
        Some(i) => if i > 0 {
            name.take(i)
        } else {
            name
        },
        None => name,
    }
}

/// The name of the file that a path leads to, without its extension.
pub open spec fn file_stem(p: Seq<char>) -> Seq<char> {
    stem(file_name(p))
}

/// A relative path below a directory.
pub fn path_below(dir: &str, file: &str) -> (r: String)
    ensures
        r@ == below(dir@, file@),
{
    let c = chars_of(dir);
    let mut out = dir.to_owned();
    if c.len() > 0 && c[c.len() - 1] != '/' {
        out.push('/');
    }
    out.append(file);
    out
}

/// A path seen from a directory.
pub fn resolve(dir: &str, file: &str) -> (r: String)
    ensures
        r@ == resolved(dir@, file@),
{
    let c = chars_of(file);
    if c.len() > 0 && c[0] == '/' {
        file.to_owned()
    } else {
        path_below(dir, file)
    }
}

/// Strips the slashes at the end of a path.
pub fn strip_slashes(s: &str) -> (r: String)
    ensures
        r@ == without_slashes(s@),
{
    let all = chars_of(s);
    let mut n: usize = all.len();
    assert(s@.take(n as int) =~= s@);
    while n > 0 && all[n - 1] == '/'
        invariant
            n <= all@.len(),
            all@ == s@,
            without_slashes(s@) == without_slashes(s@.take(n as int)),
        decreases n,
    {
        assert(s@.take(n as int).drop_last() =~= s@.take(n - 1));
        n -= 1;
    }
    assert(s@.take(n as int) =~= all@.subrange(0, n as int));
    text_of(&all, 0, n)
}

/// What follows the last slash.
pub fn tail(s: &str) -> (r: String)
    ensures
        r@ == last_component(s@),
{
    let chars = chars_of(s);
    let n: usize = chars.len();
    let from: usize = match find_last(&chars, '/') {
        Some(i) => i + 1,
        None => 0,
    };
    proof {
        lemma_last_index(s@, '/');
        assert(s@.subrange(from as int, s@.len() as int) =~= last_component(s@));
    }
    text_of(&chars, from, n)
}

/// Stripping slashes does not lengthen a path.
proof fn lemma_stripped(s: Seq<char>)
    ensures
        without_slashes(s).len() <= s.len(),
    decreases s.len(),
{
    if s.len() > 0 && s.last() == '/' {
        lemma_stripped(s.drop_last());
    }
}

/// The name of the file or directory that a path leads to.
pub fn name_of(p: &str) -> (r: String)
    ensures
        r@ == file_name(p@),
    decreases p@.len(),
{
    proof {
        lemma_stripped(p@);
    }
    let q = strip_slashes(p);
    let c = tail(q.as_str());
    let chars = chars_of(q.as_str());
    if same(c.as_str(), ".") && chars.len() > 1 {
        let rest = text_of(&chars, 0, chars.len() - 1);
        assert(rest@ =~= q@.drop_last());
        name_of(rest.as_str())
    } else if same(c.as_str(), ".") || same(c.as_str(), "..") {
        let e = String::new();
        assert(e@ =~= Seq::<char>::empty());
        e
    } else {
        c
    }
}

/// The name of the file that a path leads to, without its extension.
pub fn stem_of(p: &str) -> (r: String)
    ensures
        r@ == file_stem(p@),
{
    let name = name_of(p);
    let chars = chars_of(name.as_str());
    proof {
        lemma_last_index(name@, '.');
    }
    match find_last(&chars, '.') {
        Some(i) => {
            if i > 0 {
                assert(chars@.subrange(0, i as int) =~= name@.take(i as int));
                text_of(&chars, 0, i)
            } else {
                name
            }
        },
        None => name,
    }
}

/// A plain name below a directory is the name of the file there.
pub proof fn a_plain_name_is_found_again(dir: Seq<char>, name: Seq<char>)
    requires
        name.len() > 0,
        forall|i: int| 0 <= i < name.len() ==> #[trigger] name[i] != '/' && name[i] != '.',
    ensures
        resolved(dir, name) == below(dir, name),
        file_name(below(dir, name)) == name,
        file_stem(below(dir, name)) == name,
{
    reveal_strlit(".");
    reveal_strlit("..");
    let p = below(dir, name);
    let n = p.len() - name.len();
    assert(p.skip(n) =~= name);
    assert(p.last() == name[name.len() - 1]);
    assert(without_slashes(p) == p);
    lemma_last_index(p, '/');
    assert forall|i: int| n <= i < p.len() implies #[trigger] p[i] != '/' by {
        assert(p[i] == name[i - n]);
    }
    if n > 0 {
        assert(p[n - 1] == '/');
    }
    assert(last_component(p) =~= name);
    lemma_last_index(name, '.');
    assert(name[0] != '.');
}

/// Slashes at the end of a path are taken off, and nothing else.
pub proof fn slashes_at_the_end_do_not_count(s: Seq<char>, slashes: Seq<char>)
    requires
        s.len() > 0 ==> s.last() != '/',
        forall|i: int| 0 <= i < slashes.len() ==> #[trigger] slashes[i] == '/',
    ensures
        without_slashes(s + slashes) == s,
    decreases slashes.len(),
{
    let t = s + slashes;
    if slashes.len() == 0 {
        assert(t =~= s);
    } else {
        let less = slashes.drop_last();
        assert(slashes[slashes.len() - 1] == '/');
        assert(t.drop_last() =~= s + less);
        assert forall|i: int| 0 <= i < less.len() implies #[trigger] less[i] == '/' by {
            assert(less[i] == slashes[i]);
        }
        slashes_at_the_end_do_not_count(s, less);
    }
}

/// The last part of a path is what follows its last slash.
pub proof fn the_last_part_follows_the_last_slash(dir: Seq<char>, name: Seq<char>)
    requires
        forall|i: int| 0 <= i < name.len() ==> #[trigger] name[i] != '/',
        dir.len() == 0 || dir.last() == '/',
    ensures
        last_component(dir + name) == name,
{
    let p = dir + name;
    lemma_last_index(p, '/');
    match last_index(p, '/') {
        Some(i) => {
            if i >= dir.len() {
                assert(p[i] == name[i - dir.len()]);
            }
            if i < dir.len() - 1 {
                assert(p[dir.len() - 1] == dir.last());
            }
            assert(p.skip(i + 1) =~= name);
        },
        None => {
            if dir.len() > 0 {
                assert(p[dir.len() - 1] == dir.last());
            }
            assert(p =~= name);
        },
    }
}

/// The name of a file is the last part of its path, whatever slashes follow it, and its
/// stem is the name up to its last dot, unless the name begins with that dot.
pub proof fn a_stem_ends_at_the_last_dot(
    dir: Seq<char>,
    base: Seq<char>,
    ending: Seq<char>,
    slashes: Seq<char>,
)
    requires
        dir.len() == 0 || dir.last() == '/',
        base.len() > 0,
        forall|i: int| 0 <= i < base.len() ==> #[trigger] base[i] != '/',
        ending.len() > 0,
        forall|i: int| 0 <= i < ending.len() ==> #[trigger] ending[i] != '/' && ending[i] != '.',
        forall|i: int| 0 <= i < slashes.len() ==> #[trigger] slashes[i] == '/',
    ensures
        file_name(dir + (base + seq!['.'] + ending) + slashes) == base + seq!['.'] + ending,
        file_stem(dir + (base + seq!['.'] + ending) + slashes) == base,
        stem(seq!['.'] + ending) == seq!['.'] + ending,
        stem(ending) == ending,
{
    reveal_strlit(".");
    reveal_strlit("..");
    let name = base + seq!['.'] + ending;
    let p = dir + name;
    assert forall|i: int| 0 <= i < name.len() implies #[trigger] name[i] != '/' by {
        if i < base.len() {
            assert(name[i] == base[i]);
        } else if i > base.len() {
            assert(name[i] == ending[i - base.len() - 1]);
        }
    }
    assert(name.last() == ending[ending.len() - 1]);
    assert(p.last() == name.last());
    slashes_at_the_end_do_not_count(p, slashes);
    the_last_part_follows_the_last_slash(dir, name);
    assert(file_name(p + slashes) == name);
    lemma_last_index(name, '.');
    assert(name[base.len() as int] == '.');
    let i = last_index(name, '.')->0;
    if i > base.len() {
        assert(name[i] == ending[i - base.len() - 1]);
    }
    assert(i == base.len());
    assert(name.take(i) =~= base);
    let hidden = seq!['.'] + ending;
    lemma_last_index(hidden, '.');
    assert(hidden[0] == '.');
    let h = last_index(hidden, '.')->0;
    if h > 0 {
        assert(hidden[h] == ending[h - 1]);
    }
    lemma_last_index(ending, '.');
}

/// A file is found below a directory with one slash between the two, and a path that
/// begins with a slash stands on its own.
pub proof fn one_slash_stands_between(dir: Seq<char>, file: Seq<char>)
    ensures
        dir.len() > 0 && dir.last() != '/' ==> below(dir, file) == dir + seq!['/'] + file,
        dir.len() > 0 && dir.last() == '/' ==> below(dir, file) == dir + file,
        below(Seq::empty(), file) == file,
        resolved(dir, seq!['/'] + file) == seq!['/'] + file,
        file.len() > 0 && file[0] != '/' ==> resolved(dir, file) == below(dir, file),
{
    assert(dir.push('/') + file =~= dir + seq!['/'] + file);
    assert(Seq::<char>::empty() + file =~= file);
}

/// A dot at the end of a path stands for the directory before it, and two dots, like
/// nothing at all, name no file.
pub proof fn dots_name_no_file(dir: Seq<char>, slashes: Seq<char>)
    requires
        dir.len() > 0,
        dir.last() == '/',
        forall|i: int| 0 <= i < slashes.len() ==> #[trigger] slashes[i] == '/',
    ensures
        file_name(dir + seq!['.'] + slashes) == file_name(dir),
        file_name(dir + seq!['.', '.'] + slashes).len() == 0,
        file_name(slashes).len() == 0,
{
    reveal_strlit(".");
    reveal_strlit("..");
    let one = dir + seq!['.'];
    let two = dir + seq!['.', '.'];
    slashes_at_the_end_do_not_count(one, slashes);
    slashes_at_the_end_do_not_count(two, slashes);
    slashes_at_the_end_do_not_count(Seq::empty(), slashes);
    the_last_part_follows_the_last_slash(dir, seq!['.']);
    the_last_part_follows_the_last_slash(dir, seq!['.', '.']);
    the_last_part_follows_the_last_slash(Seq::empty(), Seq::empty());
    assert(seq!['.'] =~= "."@);
    assert(seq!['.', '.'] =~= ".."@);
    assert(one.drop_last() =~= dir);
    assert(Seq::<char>::empty() + slashes =~= slashes);
    assert(Seq::<char>::empty() + Seq::<char>::empty() =~= Seq::<char>::empty());
}

} // verus!
