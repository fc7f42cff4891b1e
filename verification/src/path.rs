//! Slash-separated paths, read the way the file system reads them.

use crate::scan::{chars_of, copy_range, find, find_after_last, push_text, spells, texts};
use crate::scan::{after_last, find_from};
use vstd::prelude::*;

verus! {

/// Whether a component stands for nothing: an empty one, or a dot anywhere but at the start of a
/// relative path.
pub open spec fn idle(part: Seq<char>, start: int) -> bool {
    part.len() == 0 || (part == seq!['.'] && start > 0)
}

/// The components of a path from an index on.
pub open spec fn parts_from(s: Seq<char>, from: int) -> Seq<Seq<char>>
    decreases s.len() - from,
{
    if from < 0 || from >= s.len() {
        Seq::empty()
    } else {
        let end = find_from(s, '/', from);
        let part = s.subrange(from, end);
        let rest = if from <= end < s.len() {
            parts_from(s, end + 1)
        } else {
            Seq::empty()
        };
        if idle(part, from) {
            rest
        } else {
            seq![part] + rest
        }
    }
}

/// The components of a path.
pub open spec fn parts(s: Seq<char>) -> Seq<Seq<char>> {
    parts_from(s, 0)
}

/// Whether a path starts at the root.
pub open spec fn absolute(s: Seq<char>) -> bool {
    s.len() > 0 && s[0] == '/'
}

/// Whether `s` lies directly in the directory `root`.
pub open spec fn lies_in(s: Seq<char>, root: Seq<char>) -> bool {
    absolute(s) == absolute(root) && parts(s).len() > 0 && parts(s).drop_last() == parts(root)
}

/// Whether two paths are made of the same components.
pub open spec fn same_path(a: Seq<char>, b: Seq<char>) -> bool {
    absolute(a) == absolute(b) && parts(a) == parts(b)
}

/// A path continued by another, which stands alone if it starts at the root.
pub open spec fn joined(root: Seq<char>, name: Seq<char>) -> Seq<char> {
    if absolute(name) {
        name
    } else if root.len() == 0 || root.last() == '/' {
        root + name
    } else {
        root + "/"@ + name
    }
}

/// The last component, unless it only points somewhere else.
pub open spec fn file_name(s: Seq<char>) -> Option<Seq<char>> {
    if parts(s).len() == 0 || parts(s).last() == seq!['.'] || parts(s).last() == seq!['.', '.'] {
        None
    } else {
        Some(parts(s).last())
    }
}

/// What follows the last dot of a file's name, if the name does not start with it.
pub open spec fn extension(s: Seq<char>) -> Option<Seq<char>> {
    match file_name(s) {
        None => None,
        Some(name) => {
            let after = after_last(name, '.', name.len() as int);
            if after <= 1 {
                None
            } else {
                Some(name.skip(after))
            }
        },
    }
}

proof fn lemma_after_last(s: Seq<char>, c: char, to: int)
    requires
        0 <= to,
    ensures
        0 <= after_last(s, c, to) <= to,
    decreases to,
{
    if to > 0 && s[to - 1] != c {
        lemma_after_last(s, c, to - 1);
    }
}

/// An extension is shorter than the name it ends, by its dot and something before that.
pub proof fn lemma_extension_fits(s: Seq<char>)
    requires
        extension(s) is Some,
    ensures
        file_name(s) is Some,
        extension(s)->0.len() + 2 <= file_name(s)->0.len(),
{
    let name = file_name(s)->0;
    lemma_after_last(name, '.', name.len() as int);
}

/// The components of a path.
pub fn components(path: &str) -> (all: Vec<Vec<char>>)
    ensures
        texts(all@) == parts(path@),
{
    let s = chars_of(path);
    let mut all: Vec<Vec<char>> = Vec::new();
    let mut from: usize = 0;
    let size: usize = s.len();
    while from < size
        invariant
            size == s@.len(),
            s@ == path@,
            texts(all@) + parts_from(s@, from as int) == parts(s@),
        decreases size - from,
    {
        let end = find(&s, '/', from);
        let part = copy_range(&s, from, end);
        let ghost before = texts(all@);
        let dot = spells(&part, ".");
        proof {
            reveal_strlit(".");
            assert("."@ =~= seq!['.']);
        }
        if !(part.len() == 0 || (dot && from > 0)) {
            let ghost one = part@;
            all.push(part);
            proof {
                assert(texts(all@) =~= before.push(one));
                assert(before.push(one) + parts_from(s@, end + 1) =~= before + (seq![one] + parts_from(
                    s@,
                    end + 1,
                )));
                assert(before.push(one) =~= before + (seq![one] + Seq::<Seq<char>>::empty()));
            }
        }
        if end >= size {
            proof {
                assert(before + Seq::<Seq<char>>::empty() =~= before);
            }
            return all;
        }
        from = end + 1;
    }
    proof {
        assert(texts(all@) + parts_from(s@, from as int) =~= texts(all@));
    }
    all
}

fn is_absolute(path: &str) -> (yes: bool)
    ensures
        yes == absolute(path@),
{
    let s = chars_of(path);
    s.len() > 0 && s[0] == '/'
}

fn same_chars(a: &Vec<char>, b: &Vec<char>) -> (same: bool)
    ensures
        same == (a@ == b@),
{
    if a.len() != b.len() {
        return false;
    }
    let mut at: usize = 0;
    while at < a.len()
        invariant
            at <= a@.len(),
            a@.len() == b@.len(),
            forall|i: int| 0 <= i < at ==> a@[i] == b@[i],
        decreases a@.len() - at,
    {
        if a[at] != b[at] {
            return false;
        }
        at = at + 1;
    }
    proof {
        assert(a@ =~= b@);
    }
    true
}

fn same_parts(a: &Vec<Vec<char>>, b: &Vec<Vec<char>>, count: usize) -> (same: bool)
    requires
        count <= a@.len(),
        count <= b@.len(),
    ensures
        same == (texts(a@).take(count as int) == texts(b@).take(count as int)),
{
    let mut at: usize = 0;
    while at < count
        invariant
            at <= count,
            count <= a@.len(),
            count <= b@.len(),
            forall|i: int| 0 <= i < at ==> texts(a@)[i] == texts(b@)[i],
        decreases count - at,
    {
        if !same_chars(&a[at], &b[at]) {
            proof {
                assert(texts(a@).take(count as int)[at as int] == a@[at as int]@);
                assert(texts(b@).take(count as int)[at as int] == b@[at as int]@);
            }
            return false;
        }
        at = at + 1;
    }
    proof {
        assert(texts(a@).take(count as int) =~= texts(b@).take(count as int));
    }
    true
}

/// Whether two paths are made of the same components.
pub fn is_same(a: &str, b: &str) -> (same: bool)
    ensures
        same == same_path(a@, b@),
{
    if is_absolute(a) != is_absolute(b) {
        return false;
    }
    let left = components(a);
    let right = components(b);
    proof {
        assert(parts(a@).len() == left@.len());
        assert(parts(b@).len() == right@.len());
        assert(parts(a@).take(left@.len() as int) =~= parts(a@));
        assert(parts(b@).take(right@.len() as int) =~= parts(b@));
    }
    left.len() == right.len() && same_parts(&left, &right, left.len())
}

/// A path continued by another.
pub fn join(root: &str, name: &str) -> (path: String)
    ensures
        path@ == joined(root@, name@),
{
    let mut path = String::new();
    let base = chars_of(root);
    if !is_absolute(name) {
        push_text(&mut path, root);
        if base.len() > 0 && base[base.len() - 1] != '/' {
            push_text(&mut path, "/");
        }
    }
    push_text(&mut path, name);
    proof {
        assert(path@ =~= joined(root@, name@));
    }
    path
}

/// Whether `path` lies directly in the directory `root`.
pub fn is_in(path: &str, root: &str) -> (yes: bool)
    ensures
        yes == lies_in(path@, root@),
{
    if is_absolute(path) != is_absolute(root) {
        return false;
    }
    let inner = components(path);
    let outer = components(root);
    proof {
        assert(parts(path@).len() == inner@.len());
        assert(parts(root@).len() == outer@.len());
    }
    if inner.len() == 0 || inner.len() - 1 != outer.len() {
        proof {
            assert(lies_in(path@, root@) ==> parts(path@).drop_last().len() == parts(root@).len());
        }
        return false;
    }
    proof {
        assert(parts(path@).take(outer@.len() as int) =~= parts(path@).drop_last());
        assert(parts(root@).take(outer@.len() as int) =~= parts(root@));
    }
    same_parts(&inner, &outer, outer.len())
}

/// The name of the file a path leads to.
pub fn file_name_of(path: &str) -> (name: Option<Vec<char>>)
    ensures
        match name {
            Some(n) => file_name(path@) == Some(n@),
            None => file_name(path@) is None,
        },
{
    let mut all = components(path);
    proof {
        assert(parts(path@).len() == all@.len());
        reveal_strlit(".");
        reveal_strlit("..");
        assert("."@ =~= seq!['.']);
        assert(".."@ =~= seq!['.', '.']);
    }
    let count: usize = all.len();
    if count == 0 {
        return None;
    }
    let ghost last = all@[count - 1]@;
    proof {
        assert(texts(all@)[count - 1] == last);
    }
    if spells(&all[count - 1], ".") || spells(&all[count - 1], "..") {
        return None;
    }
    all.pop()
}

/// The extension of the file a path leads to.
pub fn extension_of(path: &str) -> (ending: Option<Vec<char>>)
    ensures
        match ending {
            Some(e) => extension(path@) == Some(e@),
            None => extension(path@) is None,
        },
{
    match file_name_of(path) {
        None => None,
        Some(name) => {
            let size: usize = name.len();
            let after = find_after_last(&name, '.', size);
            if after <= 1 {
                None
            } else {
                let rest = copy_range(&name, after, size);
                proof {
                    assert(rest@ =~= name@.skip(after as int));
                }
                Some(rest)
            }
        },
    }
}

proof fn lemma_slash(s: Seq<char>, from: int, at: int)
    requires
        0 <= from <= at <= s.len(),
        forall|i: int| from <= i < at ==> #[trigger] s[i] != '/',
        at < s.len() ==> s[at] == '/',
    ensures
        find_from(s, '/', from) == at,
    decreases at - from,
{
    if from < at {
        assert(s[from] != '/');
        lemma_slash(s, from + 1, at);
    }
}

proof fn lemma_slash_bounds(s: Seq<char>, from: int)
    requires
        0 <= from <= s.len(),
    ensures
        from <= find_from(s, '/', from) <= s.len(),
        find_from(s, '/', from) < s.len() ==> s[find_from(s, '/', from)] == '/',
        forall|i: int| from <= i < find_from(s, '/', from) ==> #[trigger] s[i] != '/',
    decreases s.len() - from,
{
    if from < s.len() && s[from] != '/' {
        lemma_slash_bounds(s, from + 1);
    }
}

proof fn lemma_parts_joined(a: Seq<char>, b: Seq<char>, from: int)
    requires
        0 <= from <= a.len(),
        a.len() == 0 || a.last() == '/',
    ensures
        parts_from(a + b, from) == parts_from(a, from) + parts_from(a + b, a.len() as int),
    decreases a.len() - from,
{
    let s = a + b;
    if from < a.len() {
        lemma_slash_bounds(a, from);
        let end = find_from(a, '/', from);
        assert(end < a.len()) by {
            if end == a.len() {
                assert(a[a.len() - 1] != '/');
            }
        }
        assert forall|i: int| from <= i < end implies #[trigger] s[i] != '/' by {
            assert(s[i] == a[i]);
        }
        assert(s[end] == a[end]);
        lemma_slash(s, from, end);
        assert(s.subrange(from, end) =~= a.subrange(from, end));
        lemma_parts_joined(a, b, end + 1);
        let part = a.subrange(from, end);
        let rest = parts_from(s, a.len() as int);
        assert(seq![part] + (parts_from(a, end + 1) + rest) =~= (seq![part] + parts_from(a, end + 1)) + rest);
    } else {
        assert(parts_from(a, from) =~= Seq::empty());
        assert(Seq::<Seq<char>>::empty() + parts_from(s, from) =~= parts_from(s, from));
    }
}

proof fn lemma_closing_slash(a: Seq<char>, from: int)
    requires
        0 <= from <= a.len(),
    ensures
        parts_from(a + seq!['/'], from) == parts_from(a, from),
    decreases a.len() - from,
{
    let s = a + seq!['/'];
    assert(s[a.len() as int] == '/');
    if from < a.len() {
        lemma_slash_bounds(a, from);
        let end = find_from(a, '/', from);
        assert forall|i: int| from <= i < end implies #[trigger] s[i] != '/' by {
            assert(s[i] == a[i]);
        }
        if end < a.len() {
            assert(s[end] == a[end]);
        }
        lemma_slash(s, from, end);
        assert(s.subrange(from, end) =~= a.subrange(from, end));
        if end < a.len() {
            lemma_closing_slash(a, end + 1);
        } else {
            assert(parts_from(s, end + 1) =~= Seq::empty());
        }
    } else {
        lemma_slash(s, from, from);
        assert(s.subrange(from, from) =~= Seq::empty());
        assert(parts_from(s, from + 1) =~= Seq::empty());
        assert(parts_from(s, from) =~= Seq::empty());
        assert(parts_from(a, from) =~= Seq::empty());
    }
}

/// A name put behind a directory leads to a file of that name that lies in that directory.
pub proof fn a_joined_name_lies_in_its_directory(root: Seq<char>, name: Seq<char>)
    requires
        name.len() > 0,
        forall|i: int| 0 <= i < name.len() ==> #[trigger] name[i] != '/',
        name != seq!['.'],
        name != seq!['.', '.'],
    ensures
        lies_in(joined(root, name), root),
        parts(joined(root, name)) == parts(root).push(name),
        file_name(joined(root, name)) == Some(name),
        absolute(joined(root, name)) == absolute(root),
{
    reveal_strlit("/");
    assert("/"@ =~= seq!['/']);
    assert(name[0] != '/');
    let front = if root.len() == 0 || root.last() == '/' {
        root
    } else {
        root + seq!['/']
    };
    let s = front + name;
    assert(joined(root, name) =~= s);
    lemma_parts_joined(front, name, 0);
    if front != root {
        lemma_closing_slash(root, 0);
    }
    let from = front.len() as int;
    assert forall|i: int| from <= i < s.len() implies #[trigger] s[i] != '/' by {
        assert(s[i] == name[i - from]);
    }
    lemma_slash(s, from, s.len() as int);
    assert(s.subrange(from, s.len() as int) =~= name);
    assert(parts_from(s, from) =~= seq![name]);
    assert(parts(s) =~= parts(root).push(name));
    assert(parts(s).drop_last() =~= parts(root));
    if root.len() > 0 {
        assert(s[0] == root[0]);
    } else {
        assert(s[0] == name[0]);
    }
}

/// A path that starts at the root stands alone.
pub proof fn an_absolute_name_stands_alone(root: Seq<char>, name: Seq<char>)
    requires
        name.len() > 0,
        name[0] == '/',
    ensures
        joined(root, name) == name,
{
}

/// Slashes part the components: one that closes a path adds none, and neither does a second one.
pub proof fn spare_slashes_say_nothing(a: Seq<char>)
    ensures
        parts(a + seq!['/']) == parts(a),
        a.len() > 0 ==> same_path(a + seq!['/'], a),
{
    lemma_closing_slash(a, 0);
    if a.len() > 0 {
        assert((a + seq!['/'])[0] == a[0]);
    }
}

proof fn lemma_dot(s: Seq<char>, at: int, to: int)
    requires
        0 <= at <= to <= s.len(),
        at > 0 ==> s[at - 1] == '.',
        forall|i: int| at <= i < to ==> #[trigger] s[i] != '.',
    ensures
        after_last(s, '.', to) == at,
    decreases to - at,
{
    if at < to {
        assert(s[to - 1] != '.');
        lemma_dot(s, at, to - 1);
    }
}

/// An extension is what follows the last dot of a file's name. A name without a dot has none, and a
/// dot that the name begins with starts none.
pub proof fn what_follows_the_last_dot(s: Seq<char>, stem: Seq<char>, ending: Seq<char>)
    requires
        forall|i: int| 0 <= i < ending.len() ==> #[trigger] ending[i] != '.',
    ensures
        stem.len() > 0 && file_name(s) == Some(stem + seq!['.'] + ending) ==> extension(s) == Some(ending),
        file_name(s) == Some(ending) ==> extension(s) is None,
        file_name(s) == Some(seq!['.'] + ending) ==> extension(s) is None,
        file_name(s) is None ==> extension(s) is None,
{
    let name = stem + seq!['.'] + ending;
    let at = (stem.len() + 1) as int;
    assert(name[at - 1] == '.');
    assert forall|i: int| at <= i < name.len() implies #[trigger] name[i] != '.' by {
        assert(name[i] == ending[i - at]);
    }
    lemma_dot(name, at, name.len() as int);
    assert(name.skip(at) =~= ending);
    lemma_dot(ending, 0, ending.len() as int);
    let hidden = seq!['.'] + ending;
    assert forall|i: int| 1 <= i < hidden.len() implies #[trigger] hidden[i] != '.' by {
        assert(hidden[i] == ending[i - 1]);
    }
    lemma_dot(hidden, 1, hidden.len() as int);
}

} // verus!
