//! Paths as text with `/` between their components: the base name of a
//! path, and one path as seen from the directory of another.

use vstd::prelude::*;
use vstd::string::StringExecFns;
use vstd::std_specs::iter::IteratorSpec;
use crate::text::push_char;

verus! {

/// The components read of a path, and the one that is being read.
pub struct Split {
    pub done: Seq<Seq<char>>,
    pub current: Seq<char>,
}

/// The component that stands for the directory itself.
pub open spec fn dot() -> Seq<char> {
    seq!['.']
}

/// The component that stands for the parent directory.
pub open spec fn dot_dot() -> Seq<char> {
    seq!['.', '.']
}

/// Ends the component that is being read. An empty one and `.` say nothing
/// and are left out.
pub open spec fn close_component(split: Split) -> Seq<Seq<char>> {
    if split.current.len() == 0 || split.current == dot() {
        split.done
    } else {
        split.done.push(split.current)
    }
}

/// Reads one character of a path: `/` ends a component, any other character
/// belongs to the one being read.
pub open spec fn split_step(split: Split, c: char) -> Split {
    if c == '/' {
        Split { done: close_component(split), current: Seq::empty() }
    } else {
        Split { done: split.done, current: split.current.push(c) }
    }
}

/// Reads the characters of `path` in order.
pub open spec fn split_run(path: Seq<char>) -> Split
    decreases path.len(),
{
    if path.len() == 0 {
        Split { done: Seq::empty(), current: Seq::empty() }
    } else {
        split_step(split_run(path.drop_last()), path.last())
    }
}

/// The components of `path`: the pieces between its `/`, without the empty
/// ones and without `.`.
pub open spec fn components(path: Seq<char>) -> Seq<Seq<char>> {
    close_component(split_run(path))
}

/// `path` starts at the root.
pub open spec fn is_absolute(path: Seq<char>) -> bool {
    path.len() > 0 && path[0] == '/'
}

/// The components joined by `/`.
pub open spec fn join(parts: Seq<Seq<char>>) -> Seq<char>
    decreases parts.len(),
{
    if parts.len() == 0 {
        Seq::empty()
    } else if parts.len() == 1 {
        parts[0]
    } else {
        join(parts.drop_last()) + seq!['/'] + parts.last()
    }
}

/// The base name of `path`: its last component, or the empty text where it
/// has none or ends in `..`.
pub open spec fn base_name_of(path: Seq<char>) -> Seq<char> {
    let parts = components(path);
    if parts.len() == 0 || parts.last() == dot_dot() {
        Seq::empty()
    } else {
        parts.last()
    }
}

/// The components of the directory that holds the file `path`.
pub open spec fn directory_of(path: Seq<char>) -> Seq<Seq<char>> {
    let parts = components(path);
    if parts.len() == 0 {
        parts
    } else {
        parts.drop_last()
    }
}

/// The number of leading components that `a` and `b` share.
pub open spec fn common_prefix(a: Seq<Seq<char>>, b: Seq<Seq<char>>) -> nat
    decreases a.len(),
{
    if a.len() == 0 || b.len() == 0 || a[0] != b[0] {
        0
    } else {
        1 + common_prefix(a.drop_first(), b.drop_first())
    }
}

/// `n` steps up to the parent directory.
pub open spec fn ascents(n: nat) -> Seq<Seq<char>> {
    Seq::new(n, |i: int| dot_dot())
}

/// The path `to` as seen from the directory of the file `from`: one `..` for
/// each component of that directory behind what the two share, then the
/// rest of `to`. Where that cannot be told, `to` stands as it was given:
/// when only one of the two starts at the root, and when the directory
/// itself climbs by `..` behind what they share.
pub open spec fn relative_path_of(from: Seq<char>, to: Seq<char>) -> Seq<char> {
    let base = directory_of(from);
    let target = components(to);
    let shared = common_prefix(base, target) as int;
    if is_absolute(from) != is_absolute(to) || base.skip(shared).contains(dot_dot()) {
        to
    } else {
        join(ascents((base.len() - shared) as nat) + target.skip(shared))
    }
}

/// The texts of a vector of strings.
pub open spec fn texts(items: Seq<String>) -> Seq<Seq<char>> {
    Seq::new(items.len(), |i: int| items[i]@)
}

/// Splits `path` into its components.
pub fn split_components(path: &str) -> (parts: Vec<String>)
    ensures
        texts(parts@) == components(path@),
{
    broadcast use vstd::string::group_string_axioms;

    let mut done: Vec<String> = Vec::new();
    let mut current = String::new();
    let mut it = path.chars();
    let ghost mut seen: Seq<char> = Seq::empty();
    assert(texts(done@) =~= split_run(seen).done);
    loop
        invariant
            it.decrease() is Some,
            seen + it.remaining() == path@,
            texts(done@) == split_run(seen).done,
            current@ == split_run(seen).current,
        decreases it.decrease()->0,
    {
        let ghost rest = it.remaining();
        match it.next() {
            Some(c) => {
                proof {
                    assert(seen.push(c).drop_last() =~= seen);
                    assert(seen.push(c) + rest.drop_first() =~= seen + rest);
                    seen = seen.push(c);
                }
                if c == '/' {
                    close_into(&mut done, current);
                    current = String::new();
                } else {
                    push_char(&mut current, c);
                }
            },
            None => {
                proof {
                    assert(seen =~= path@);
                }
                close_into(&mut done, current);
                return done;
            },
        }
    }
}

/// Ends the component `current` and puts it behind `done`, unless it says
/// nothing.
fn close_into(done: &mut Vec<String>, current: String)
    ensures
        texts(final(done)@) == close_component(
            (Split { done: texts(old(done)@), current: current@ }),
        ),
{
    proof {
        reveal_strlit("");
        reveal_strlit(".");
        assert(""@ =~= Seq::<char>::empty());
        assert("."@ =~= dot());
        assert(current@.len() == 0 ==> current@ =~= Seq::<char>::empty());
    }
    if text_is(&current, "") || text_is(&current, ".") {
        return;
    }
    done.push(current);
    assert(texts(done@) =~= texts(old(done)@).push(current@));
}

/// Tells whether `path` starts at the root.
fn starts_at_root(path: &str) -> (absolute: bool)
    ensures
        absolute == is_absolute(path@),
{
    broadcast use vstd::string::group_string_axioms;

    let mut it = path.chars();
    match it.next() {
        Some(c) => c == '/',
        None => false,
    }
}

/// The base name of `path`.
pub fn base_name(path: &str) -> (name: String)
    ensures
        name@ == base_name_of(path@),
{
    let mut parts = split_components(path);
    let ghost all = parts@;
    proof {
        reveal_strlit("..");
        assert(".."@ =~= dot_dot());
    }
    match parts.pop() {
        Some(last) => {
            assert(texts(all).last() == last@);
            if text_is(&last, "..") {
                String::new()
            } else {
                last
            }
        },
        None => String::new(),
    }
}

/// Joins `parts` by `/`.
fn join_all(parts: &Vec<String>) -> (path: String)
    ensures
        path@ == join(texts(parts@)),
{
    let ghost all = texts(parts@);
    let mut out = String::new();
    let mut i: usize = 0;
    while i < parts.len()
        invariant
            i <= parts.len(),
            all == texts(parts@),
            out@ == join(all.take(i as int)),
        decreases parts.len() - i,
    {
        proof {
            assert(all.take(i + 1).drop_last() =~= all.take(i as int));
            assert(all.take(i + 1).last() == parts@[i as int]@);
        }
        if i > 0 {
            push_char(&mut out, '/');
        }
        out.append(parts[i].as_str());
        proof {
            if i > 0 {
                assert(out@ =~= join(all.take(i as int)) + seq!['/'] + parts@[i as int]@);
            } else {
                assert(out@ =~= parts@[i as int]@);
                assert(all.take(1)[0] == parts@[0]@);
            }
        }
        i = i + 1;
    }
    assert(all.take(i as int) =~= all);
    out
}

/// Counts the leading components that `a` and `b` share.
fn shared_prefix(a: &Vec<String>, b: &Vec<String>) -> (n: usize)
    ensures
        n == common_prefix(texts(a@), texts(b@)),
        n <= a.len(),
        n <= b.len(),
{
    let ghost ta = texts(a@);
    let ghost tb = texts(b@);
    let mut i: usize = 0;
    assert(ta.skip(0) =~= ta && tb.skip(0) =~= tb);
    loop
        invariant
            i <= a.len(),
            i <= b.len(),
            ta == texts(a@),
            tb == texts(b@),
            common_prefix(ta, tb) == i + common_prefix(ta.skip(i as int), tb.skip(i as int)),
        decreases a.len() - i,
    {
        if i >= a.len() || i >= b.len() {
            return i;
        }
        assert(ta.skip(i as int)[0] == a@[i as int]@);
        assert(tb.skip(i as int)[0] == b@[i as int]@);
        if a[i] != b[i] {
            return i;
        }
        proof {
            assert(ta.skip(i as int).drop_first() =~= ta.skip(i + 1));
            assert(tb.skip(i as int).drop_first() =~= tb.skip(i + 1));
        }
        i = i + 1;
    }
}

/// The path `to` as seen from the directory of the file `from`.
#[verifier::loop_isolation(false)]
pub fn relative_path(from: &str, to: &str) -> (path: String)
    ensures
        path@ == relative_path_of(from@, to@),
{
    let mut base = split_components(from);
    base.pop();
    let target = split_components(to);
    let ghost tb = texts(base@);
    let ghost tt = texts(target@);
    assert(tb =~= directory_of(from@));
    if starts_at_root(from) != starts_at_root(to) {
        return to.to_owned();
    }
    let shared = shared_prefix(&base, &target);
    proof {
        reveal_strlit("..");
        assert(".."@ =~= dot_dot());
    }
    let mut parts: Vec<String> = Vec::new();
    let mut i: usize = shared;
    assert(texts(parts@) =~= ascents(0));
    while i < base.len()
        invariant
            shared <= i <= base.len(),
            tb == texts(base@),
            ".."@ == dot_dot(),
            texts(parts@) == ascents((i - shared) as nat),
            forall|k: int| shared <= k < i ==> tb[k] != dot_dot(),
        decreases base.len() - i,
    {
        if text_is(&base[i], "..") {
            proof {
                assert(tb[i as int] == dot_dot());
                assert(tb.skip(shared as int)[i - shared] == dot_dot());
            }
            return to.to_owned();
        }
        let ghost held = texts(parts@);
        let up = "..".to_owned();
        parts.push(up);
        i = i + 1;
        assert(texts(parts@) =~= held.push(dot_dot()));
        assert(held.push(dot_dot()) =~= ascents((i - shared) as nat));
    }
    proof {
        let rest = tb.skip(shared as int);
        if rest.contains(dot_dot()) {
            let k = choose|k: int| 0 <= k < rest.len() && rest[k] == dot_dot();
            assert(tb[shared + k] == dot_dot());
        }
    }
    let ghost ups = texts(parts@);
    let mut j: usize = shared;
    assert(ups + tt.skip(shared as int).take(0) =~= ups);
    while j < target.len()
        invariant
            shared <= j <= target.len(),
            tt == texts(target@),
            texts(parts@) == ups + tt.skip(shared as int).take(j - shared),
        decreases target.len() - j,
    {
        let ghost held = texts(parts@);
        let part = target[j].clone();
        parts.push(part);
        assert(texts(parts@) =~= held.push(tt[j as int]));
        j = j + 1;
        assert(held.push(tt[j - 1]) =~= ups + tt.skip(shared as int).take(j - shared));
    }
    assert(tt.skip(shared as int).take(j - shared) =~= tt.skip(shared as int));
    join_all(&parts)
}

/// Tells whether `s` holds the text of `literal`.
fn text_is(s: &String, literal: &str) -> (same: bool)
    ensures
        same == (s@ == literal@),
{
    let wanted = literal.to_owned();
    *s == wanted
}

} // verus!
