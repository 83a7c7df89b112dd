//! Path strings: a path is a sequence of characters in which `/` separates
//! the names of its components. Empty names (a leading, trailing or doubled
//! separator) are not components. Every other name is one, `.` and `..`
//! among them: a path is read as it is written and not resolved. Callers
//! whose platform separates components otherwise hand paths over with `/`
//! in place of their separator.

use vstd::prelude::*;

verus! {

/// Index of the first `/` in `s`, or the length of `s` when it holds none.
pub open spec fn first_separator(s: Seq<char>) -> int
    decreases s.len(),
{
    if s.len() == 0 || s[0] == '/' {
        0
    } else {
        1 + first_separator(s.skip(1))
    }
}

/// The non-empty names between the separators of `s`, first to last. The
/// names `.` and `..` are names like any other: they are neither passed
/// over nor resolved.
pub open spec fn path_components(s: Seq<char>) -> Seq<Seq<char>>
    decreases s.len(),
{
    if s.len() == 0 {
        Seq::empty()
    } else {
        let k = first_separator(s);
        let rest = if 0 <= k < s.len() {
            path_components(s.skip(k + 1))
        } else {
            Seq::empty()
        };
        if k == 0 {
            rest
        } else {
            seq![s.take(k)] + rest
        }
    }
}

/// The components joined by single separators, with none at either end.
pub open spec fn join_components(names: Seq<Seq<char>>) -> Seq<char>
    decreases names.len(),
{
    if names.len() == 0 {
        Seq::empty()
    } else if names.len() == 1 {
        names[0]
    } else {
        join_components(names.drop_last()) + seq!['/'] + names.last()
    }
}

/// The last component of a path, if it has one; `.` and `..` count as
/// components.
pub open spec fn file_name_of(s: Seq<char>) -> Option<Seq<char>> {
    let names = path_components(s);
    if names.len() == 0 {
        None
    } else {
        Some(names.last())
    }
}

/// Index of the last `.` in `s`, or -1 when it holds none.
pub open spec fn last_dot(s: Seq<char>) -> int
    decreases s.len(),
{
    if s.len() == 0 {
        -1
    } else if s.last() == '.' {
        s.len() - 1
    } else {
        last_dot(s.drop_last())
    }
}

/// What follows the last `.` of a file name. A name without a dot, one whose
/// only dot is its first character, and the name `..` have no extension.
pub open spec fn extension_of(name: Seq<char>) -> Option<Seq<char>> {
    let dot = last_dot(name);
    if dot <= 0 || name == seq!['.', '.'] {
        None
    } else {
        Some(name.skip(dot + 1))
    }
}

/// The first separator is at `k` where no character before `k` is one and
/// the character at `k` is one, or the string ends there.
pub proof fn lemma_first_separator(s: Seq<char>, k: int)
    requires
        0 <= k <= s.len(),
        forall|j: int| 0 <= j < k ==> s[j] != '/',
        k == s.len() || s[k] == '/',
    ensures
        first_separator(s) == k,
    decreases k,
{
    if k > 0 {
        lemma_first_separator(s.skip(1), k - 1);
    }
}

/// The last dot is at `k` where no character after `k` is one and the
/// character at `k` is one, or `k` is -1.
pub proof fn lemma_last_dot(s: Seq<char>, k: int)
    requires
        -1 <= k < s.len(),
        forall|j: int| k < j < s.len() ==> s[j] != '.',
        k == -1 || s[k] == '.',
    ensures
        last_dot(s) == k,
    decreases s.len(),
{
    if s.len() > 0 && k < s.len() - 1 {
        lemma_last_dot(s.drop_last(), k);
    }
}

/// Whether a sequence of characters can be a component: it is not empty
/// and holds no separator.
pub open spec fn is_component(name: Seq<char>) -> bool {
    name.len() > 0 && !name.contains('/')
}

/// Every component of a path is one.
pub proof fn law_components_are_names(s: Seq<char>)
    ensures
        forall|i: int|
            0 <= i < path_components(s).len() ==> is_component(#[trigger] path_components(s)[i]),
    decreases s.len(),
{
    if s.len() > 0 {
        let k = first_separator(s);
        lemma_first_separator_bounds(s);
        if k < s.len() {
            law_components_are_names(s.skip(k + 1));
        }
        let names = path_components(s);
        assert forall|i: int| 0 <= i < names.len() implies {
            &&& (#[trigger] names[i]).len() > 0
            &&& !names[i].contains('/')
        } by {
            if k > 0 && i == 0 {
                assert(names[0] == s.take(k));
                assert forall|j: int| 0 <= j < s.take(k).len() implies s.take(k)[j] != '/' by {
                    assert(s.take(k)[j] == s[j]);
                }
            } else if k > 0 {
                assert(names[i] == path_components(s.skip(k + 1))[i - 1]);
            }
        }
    }
}

/// The first separator lies within the string, with no separator before it.
pub proof fn lemma_first_separator_bounds(s: Seq<char>)
    ensures
        0 <= first_separator(s) <= s.len(),
        forall|j: int| 0 <= j < first_separator(s) ==> s[j] != '/',
        first_separator(s) < s.len() ==> s[first_separator(s)] == '/',
    decreases s.len(),
{
    if s.len() > 0 && s[0] != '/' {
        lemma_first_separator_bounds(s.skip(1));
        assert forall|j: int| 0 <= j < first_separator(s) implies s[j] != '/' by {
            if j > 0 {
                assert(s[j] == s.skip(1)[j - 1]);
            }
        }
    }
}

/// A path made of two parts with a separator between them has the
/// components of the first part, then those of the second.
pub proof fn lemma_components_concat(a: Seq<char>, b: Seq<char>)
    ensures
        path_components(a + seq!['/'] + b) == path_components(a) + path_components(b),
    decreases a.len(),
{
    let s = a + seq!['/'] + b;
    if a.len() == 0 {
        assert(s.skip(1) =~= b);
        assert(first_separator(s) == 0);
        assert(path_components(a) + path_components(b) =~= path_components(b));
    } else {
        lemma_first_separator_bounds(a);
        let k = first_separator(a);
        assert forall|j: int| 0 <= j < k implies s[j] != '/' by {
            assert(s[j] == a[j]);
        }
        assert(s[k] == '/') by {
            if k < a.len() {
                assert(s[k] == a[k]);
            }
        }
        lemma_first_separator(s, k);
        assert(s.take(k) =~= a.take(k));
        if k < a.len() {
            assert(s.skip(k + 1) =~= a.skip(k + 1) + seq!['/'] + b);
            lemma_components_concat(a.skip(k + 1), b);
            let first = if k == 0 {
                Seq::<Seq<char>>::empty()
            } else {
                seq![a.take(k)]
            };
            assert(first + (path_components(a.skip(k + 1)) + path_components(b)) =~= (first
                + path_components(a.skip(k + 1))) + path_components(b));
        } else {
            assert(s.skip(k + 1) =~= b);
            assert(path_components(a) =~= seq![a.take(k)]);
        }
    }
}

/// A component is a path of one component: itself.
pub proof fn lemma_component_alone(name: Seq<char>)
    requires
        is_component(name),
    ensures
        path_components(name) == seq![name],
{
    assert forall|j: int| 0 <= j < name.len() implies name[j] != '/' by {
        if name[j] == '/' {
            assert(name.contains('/'));
        }
    }
    lemma_first_separator(name, name.len() as int);
    assert(name.take(name.len() as int) =~= name);
    assert(seq![name] + Seq::<Seq<char>>::empty() =~= seq![name]);
}

/// Joining components and splitting the result gives the components back.
pub proof fn law_split_after_join(names: Seq<Seq<char>>)
    requires
        forall|i: int| 0 <= i < names.len() ==> is_component(#[trigger] names[i]),
    ensures
        path_components(join_components(names)) == names,
    decreases names.len(),
{
    if names.len() == 1 {
        lemma_component_alone(names[0]);
        assert(names =~= seq![names[0]]);
    } else if names.len() > 1 {
        law_split_after_join(names.drop_last());
        lemma_components_concat(join_components(names.drop_last()), names.last());
        lemma_component_alone(names.last());
        assert(names.drop_last() + seq![names.last()] =~= names);
    } else {
        assert(names =~= Seq::<Seq<char>>::empty());
    }
}

/// The characters of a string, one element each.
pub fn to_chars(s: &str) -> (chars: Vec<char>)
    ensures
        chars@ == s@,
{
    let mut chars: Vec<char> = Vec::new();
    for c in it: s.chars()
        invariant
            chars@ == it.seq().take(it.index()),
            it.seq() == s@,
    {
        assert(it.seq().take(it.index() + 1) =~= it.seq().take(it.index()).push(c));
        chars.push(c);
    }
    assert(chars@ =~= s@);
    chars
}

/// Splits a path into its components.
pub fn split_components(path: &str) -> (names: Vec<String>)
    ensures
        names.deep_view() == path_components(path@),
{
    let chars = to_chars(path);
    let n: usize = chars.len();
    let mut names: Vec<String> = Vec::new();
    let mut start: usize = 0;
    let mut i: usize = 0;
    assert(path@.skip(0) =~= path@);
    assert(names.deep_view() =~= Seq::<Seq<char>>::empty());
    while i < n
        invariant
            chars@ == path@,
            n == chars.len(),
            start <= i <= n,
            forall|j: int| start <= j < i ==> chars[j] != '/',
            names.deep_view() + path_components(path@.skip(start as int)) == path_components(
                path@,
            ),
        decreases n - i,
    {
        if chars[i] == '/' {
            let ghost tail = path@.skip(start as int);
            let ghost done = names.deep_view();
            proof {
                lemma_first_separator(tail, i - start);
                assert(tail.skip(i - start + 1) =~= path@.skip(i + 1));
                assert(tail.take(i - start) =~= path@.subrange(start as int, i as int));
            }
            if i > start {
                let name = path.substring_char(start, i);
                names.push(name.to_owned());
                proof {
                    assert(names.deep_view() =~= done.push(name@));
                    assert(done.push(name@) + path_components(path@.skip(i + 1)) =~= done + (
                    seq![name@] + path_components(path@.skip(i + 1))));
                }
            }
            start = i + 1;
        }
        i += 1;
    }
    let ghost tail = path@.skip(start as int);
    let ghost done = names.deep_view();
    proof {
        lemma_first_separator(tail, n - start);
        assert(tail.take(n - start) =~= path@.subrange(start as int, n as int));
    }
    if n > start {
        let name = path.substring_char(start, n);
        names.push(name.to_owned());
        proof {
            assert(names.deep_view() =~= done.push(name@));
            assert(done.push(name@) =~= done + (seq![name@] + Seq::<Seq<char>>::empty()));
        }
    } else {
        assert(done + Seq::<Seq<char>>::empty() =~= done);
    }
    names
}

/// The last component of a path, if it has one.
pub fn file_name(path: &str) -> (name: Option<String>)
    ensures
        name.deep_view() == file_name_of(path@),
{
    let mut names = split_components(path);
    names.pop()
}

/// The extension of a file name.
pub fn extension(name: &str) -> (ext: Option<String>)
    ensures
        ext.deep_view() == extension_of(name@),
{
    let chars = to_chars(name);
    let n: usize = chars.len();
    let mut i: usize = n;
    while i > 0 && chars[i - 1] != '.'
        invariant
            i <= n,
            n == chars.len(),
            forall|j: int| i <= j < n ==> chars[j] != '.',
        decreases i,
    {
        i -= 1;
    }
    proof {
        lemma_last_dot(chars@, i - 1);
    }
    if i <= 1 || (n == 2 && chars[0] == '.') {
        proof {
            if n == 2 && chars[0] == '.' && i > 1 {
                assert(name@ =~= seq!['.', '.']);
            }
        }
        None
    } else {
        assert(name@ != seq!['.', '.']) by {
            if name@ == seq!['.', '.'] {
                assert(name@.len() == 2);
                assert(name@[0] == '.');
            }
        }
        let tail = name.substring_char(i, n);
        assert(name@.skip(i as int) =~= name@.subrange(i as int, n as int));
        Some(tail.to_owned())
    }
}

/// Whether `text` begins with the characters of `prefix`.
pub fn starts_with(text: &str, prefix: &str) -> (yes: bool)
    ensures
        yes == prefix@.is_prefix_of(text@),
{
    let t = to_chars(text);
    let p = to_chars(prefix);
    if p.len() > t.len() {
        return false;
    }
    let mut i: usize = 0;
    while i < p.len()
        invariant
            p@ == prefix@,
            t@ == text@,
            i <= p.len() <= t.len(),
            forall|j: int| 0 <= j < i ==> p[j] == t[j],
        decreases p.len() - i,
    {
        if p[i] != t[i] {
            assert(t@.subrange(0, p@.len() as int)[i as int] == t[i as int]);
            return false;
        }
        i += 1;
    }
    assert(p@ =~= t@.subrange(0, p@.len() as int));
    true
}

/// The names joined by single separators.
pub fn join(names: &Vec<String>, count: usize) -> (path: String)
    requires
        count <= names.len(),
    ensures
        path@ == join_components(names.deep_view().take(count as int)),
{
    let mut path = String::new();
    let mut i: usize = 0;
    assert(names.deep_view().take(0) =~= Seq::<Seq<char>>::empty());
    while i < count
        invariant
            i <= count <= names.len(),
            path@ == join_components(names.deep_view().take(i as int)),
        decreases count - i,
    {
        let ghost before = names.deep_view().take(i as int);
        let ghost after = names.deep_view().take(i + 1);
        proof {
            assert(after.drop_last() =~= before);
            assert(after.last() == names[i as int]@);
        }
        if i > 0 {
            path.append("/");
            proof {
                reveal_strlit("/");
                assert("/"@ =~= seq!['/']);
            }
        } else {
            assert(Seq::<char>::empty() + names[i as int]@ =~= names[i as int]@);
        }
        path.append(names[i].as_str());
        i += 1;
    }
    path
}

} // verus!
