//! Vault-relative paths as character sequences with `/` between components,
//! and the relative-path algebra that link rewriting rests on.

use vstd::prelude::*;
use crate::text::{chars_of, extend_chars, string_of};

verus! {

/// The components of `path`: the pieces between its slashes, in order. Every
/// path has at least one component, possibly empty.
pub open spec fn components(path: Seq<char>) -> Seq<Seq<char>>
    decreases path.len(),
{
    if path.len() == 0 {
        seq![Seq::<char>::empty()]
    } else {
        let before = components(path.drop_last());
        if path.last() == '/' {
            before.push(Seq::<char>::empty())
        } else {
            before.update(before.len() - 1, before.last().push(path.last()))
        }
    }
}

/// The directories of `path`: all components but the last.
pub open spec fn directories(path: Seq<char>) -> Seq<Seq<char>> {
    components(path).drop_last()
}

/// The last component of `path`.
pub open spec fn file_name(path: Seq<char>) -> Seq<char> {
    components(path).last()
}

/// The components joined by single slashes.
pub open spec fn join(parts: Seq<Seq<char>>) -> Seq<char>
    decreases parts.len(),
{
    if parts.len() == 0 {
        Seq::<char>::empty()
    } else if parts.len() == 1 {
        parts[0]
    } else {
        join(parts.drop_last()) + seq!['/'] + parts.last()
    }
}

/// How many leading components `a` and `b` share, counting from `from`.
pub open spec fn common_prefix(a: Seq<Seq<char>>, b: Seq<Seq<char>>, from: int) -> int
    decreases a.len() - from,
{
    if 0 <= from < a.len() && from < b.len() && a[from] == b[from] {
        common_prefix(a, b, from + 1)
    } else {
        from
    }
}

/// `n` steps up: `../` repeated `n` times.
pub open spec fn ascend(n: nat) -> Seq<char>
    decreases n,
{
    if n == 0 {
        Seq::<char>::empty()
    } else {
        ascend((n - 1) as nat) + seq!['.', '.', '/']
    }
}

/// The path that leads from the directory of the file `from` to the file
/// `to`: one `../` for each directory of `from` that `to` does not share,
/// then what is left of `to`.
pub open spec fn relative_path(from: Seq<char>, to: Seq<char>) -> Seq<char> {
    let shared = common_prefix(directories(from), directories(to), 0);
    ascend((directories(from).len() - shared) as nat) + join(components(to).skip(shared))
}

/// The character sequences held by a list of character vectors.
pub open spec fn parts_view(parts: Seq<Vec<char>>) -> Seq<Seq<char>> {
    Seq::new(parts.len(), |i: int| parts[i]@)
}

/// Splits `path` at its slashes.
pub fn split_components(path: &Vec<char>) -> (parts: Vec<Vec<char>>)
    ensures
        parts_view(parts@) == components(path@),
        parts.len() >= 1,
{
    let mut parts: Vec<Vec<char>> = Vec::new();
    let mut current: Vec<char> = Vec::new();
    let mut i: usize = 0;
    assert(path@.take(0) =~= Seq::<char>::empty());
    assert(parts_view(parts@).push(current@) =~= components(path@.take(0)));
    while i < path.len()
        invariant
            i <= path.len(),
            parts_view(parts@).push(current@) == components(path@.take(i as int)),
        decreases path.len() - i,
    {
        let ghost before = parts_view(parts@).push(current@);
        let c = path[i];
        if c == '/' {
            parts.push(current);
            current = Vec::new();
        } else {
            current.push(c);
        }
        i = i + 1;
        proof {
            let prefix = path@.take(i as int);
            assert(prefix.drop_last() =~= path@.take(i - 1));
            assert(prefix.last() == c);
            if c == '/' {
                assert(parts_view(parts@).push(current@) =~= before.push(Seq::<char>::empty()));
            } else {
                assert(parts_view(parts@).push(current@) =~= before.update(
                    before.len() - 1,
                    before.last().push(c),
                ));
            }
        }
    }
    assert(path@.take(i as int) =~= path@);
    let ghost before = parts_view(parts@);
    parts.push(current);
    assert(parts_view(parts@) =~= before.push(current@));
    parts
}

/// Joins `parts[from..]` with slashes.
pub fn join_components(parts: &Vec<Vec<char>>, from: usize) -> (path: Vec<char>)
    requires
        from <= parts.len(),
    ensures
        path@ == join(parts_view(parts@).skip(from as int)),
{
    let mut path: Vec<char> = Vec::new();
    let ghost all = parts_view(parts@).skip(from as int);
    let mut i: usize = from;
    assert(all.take(0) =~= Seq::<Seq<char>>::empty());
    while i < parts.len()
        invariant
            from <= i <= parts.len(),
            all == parts_view(parts@).skip(from as int),
            path@ == join(all.take(i - from)),
        decreases parts.len() - i,
    {
        if i > from {
            path.push('/');
        }
        extend_chars(&mut path, &parts[i]);
        i = i + 1;
        proof {
            let now = all.take(i - from);
            assert(now.drop_last() =~= all.take(i - from - 1));
            assert(now.last() == parts@[i - 1]@);
            if now.len() == 1 {
                assert(path@ =~= now[0]);
            } else {
                assert(path@ =~= join(now.drop_last()) + seq!['/'] + now.last());
            }
        }
    }
    assert(all.take(i - from) =~= all);
    path
}

/// Counts the leading components shared by the first `a_len` parts of `a`
/// and the first `b_len` parts of `b`.
fn shared_prefix(a: &Vec<Vec<char>>, a_len: usize, b: &Vec<Vec<char>>, b_len: usize) -> (n: usize)
    requires
        a_len <= a.len(),
        b_len <= b.len(),
    ensures
        n == common_prefix(
            parts_view(a@).take(a_len as int),
            parts_view(b@).take(b_len as int),
            0,
        ),
        n <= a_len,
        n <= b_len,
{
    let ghost sa = parts_view(a@).take(a_len as int);
    let ghost sb = parts_view(b@).take(b_len as int);
    let mut i: usize = 0;
    while i < a_len && i < b_len && crate::text::same_chars(&a[i], &b[i])
        invariant
            i <= a_len <= a.len(),
            i <= b_len <= b.len(),
            sa == parts_view(a@).take(a_len as int),
            sb == parts_view(b@).take(b_len as int),
            common_prefix(sa, sb, 0) == common_prefix(sa, sb, i as int),
        decreases a_len - i,
    {
        i = i + 1;
    }
    i
}

/// Computes `relative_path` on character vectors.
pub fn relative_chars(from: &Vec<char>, to: &Vec<char>) -> (path: Vec<char>)
    ensures
        path@ == relative_path(from@, to@),
{
    let from_parts = split_components(from);
    let to_parts = split_components(to);
    let from_dirs = from_parts.len() - 1;
    let to_dirs = to_parts.len() - 1;
    proof {
        assert(parts_view(from_parts@).take(from_dirs as int) =~= directories(from@));
        assert(parts_view(to_parts@).take(to_dirs as int) =~= directories(to@));
    }
    let shared = shared_prefix(&from_parts, from_dirs, &to_parts, to_dirs);
    let mut path: Vec<char> = Vec::new();
    let mut k: usize = shared;
    while k < from_dirs
        invariant
            shared <= k <= from_dirs,
            path@ == ascend((k - shared) as nat),
        decreases from_dirs - k,
    {
        path.push('.');
        path.push('.');
        path.push('/');
        k = k + 1;
        assert(path@ =~= ascend((k - 1 - shared) as nat) + seq!['.', '.', '/']);
    }
    let rest = join_components(&to_parts, shared);
    extend_chars(&mut path, &rest);
    path
}

/// The relative path from the directory of the file `from` to the file `to`,
/// both given relative to one root.
pub fn relative_link(from: &str, to: &str) -> (path: String)
    ensures
        path@ == relative_path(from@, to@),
{
    let from_chars = chars_of(from);
    let to_chars = chars_of(to);
    let path = relative_chars(&from_chars, &to_chars);
    string_of(&path)
}

/// Where one ends up who starts in the directory `dirs` and follows
/// `steps`: `..` leads to the directory above, any other step into the
/// directory or to the file of that name.
pub open spec fn follow(dirs: Seq<Seq<char>>, steps: Seq<Seq<char>>) -> Seq<Seq<char>>
    decreases steps.len(),
{
    if steps.len() == 0 {
        dirs
    } else if steps[0] == seq!['.', '.'] {
        if dirs.len() > 0 {
            follow(dirs.drop_last(), steps.drop_first())
        } else {
            follow(dirs, steps.drop_first())
        }
    } else {
        follow(dirs.push(steps[0]), steps.drop_first())
    }
}

/// `count` steps up.
pub open spec fn steps_up(count: nat) -> Seq<Seq<char>> {
    Seq::new(count, |i: int| seq!['.', '.'])
}

/// No character of `s` is a slash.
pub open spec fn has_no_slash(s: Seq<char>) -> bool {
    forall|i: int| 0 <= i < s.len() ==> s[i] != '/'
}

proof fn lemma_components_len(path: Seq<char>)
    ensures
        components(path).len() >= 1,
    decreases path.len(),
{
    if path.len() > 0 {
        lemma_components_len(path.drop_last());
    }
}

proof fn lemma_components_have_no_slash(path: Seq<char>)
    ensures
        forall|i: int| 0 <= i < components(path).len() ==> has_no_slash(#[trigger] components(path)[i]),
    decreases path.len(),
{
    if path.len() > 0 {
        lemma_components_have_no_slash(path.drop_last());
        lemma_components_len(path.drop_last());
        let before = components(path.drop_last());
        assert forall|i: int| 0 <= i < components(path).len() implies has_no_slash(
            #[trigger] components(path)[i],
        ) by {
            if i < before.len() {
                assert(has_no_slash(before[i]));
            }
        }
    }
}

proof fn lemma_components_of_name(name: Seq<char>)
    requires
        has_no_slash(name),
    ensures
        components(name) == seq![name],
    decreases name.len(),
{
    if name.len() > 0 {
        lemma_components_of_name(name.drop_last());
        assert(name.drop_last().push(name.last()) =~= name);
        assert(components(name) =~= seq![name]);
    } else {
        assert(name =~= Seq::<char>::empty());
    }
}

proof fn lemma_components_of_joined(a: Seq<char>, b: Seq<char>)
    ensures
        components(a + seq!['/'] + b) == components(a) + components(b),
    decreases b.len(),
{
    let whole = a + seq!['/'] + b;
    if b.len() == 0 {
        assert(whole.drop_last() =~= a);
        assert(components(whole) =~= components(a) + components(b));
    } else {
        lemma_components_of_joined(a, b.drop_last());
        lemma_components_len(b.drop_last());
        assert(whole.drop_last() =~= a + seq!['/'] + b.drop_last());
        assert(whole.last() == b.last());
        assert(components(whole) =~= components(a) + components(b));
    }
}

proof fn lemma_components_of_join(parts: Seq<Seq<char>>)
    requires
        parts.len() >= 1,
        forall|i: int| 0 <= i < parts.len() ==> has_no_slash(#[trigger] parts[i]),
    ensures
        components(join(parts)) == parts,
    decreases parts.len(),
{
    if parts.len() == 1 {
        lemma_components_of_name(parts[0]);
        assert(seq![parts[0]] =~= parts);
    } else {
        let front = parts.drop_last();
        assert forall|i: int| 0 <= i < front.len() implies has_no_slash(#[trigger] front[i]) by {
            assert(front[i] == parts[i]);
        }
        lemma_components_of_join(front);
        lemma_components_of_joined(join(front), parts.last());
        lemma_components_of_name(parts.last());
        assert(front + seq![parts.last()] =~= parts);
    }
}

proof fn lemma_components_after_ascent(count: nat, rest: Seq<char>)
    ensures
        components(ascend(count) + rest) == steps_up(count) + components(rest),
    decreases count,
{
    if count == 0 {
        assert(ascend(count) + rest =~= rest);
        assert(steps_up(count) + components(rest) =~= components(rest));
    } else {
        let up = seq!['.', '.'];
        let longer = up + seq!['/'] + rest;
        lemma_components_after_ascent((count - 1) as nat, longer);
        lemma_components_of_joined(up, rest);
        assert(has_no_slash(up));
        lemma_components_of_name(up);
        assert(ascend(count) + rest =~= ascend((count - 1) as nat) + longer);
        assert(steps_up((count - 1) as nat) + (seq![up] + components(rest)) =~= steps_up(count)
            + components(rest));
    }
}

proof fn lemma_follow_down(dirs: Seq<Seq<char>>, steps: Seq<Seq<char>>)
    requires
        forall|i: int| 0 <= i < steps.len() ==> #[trigger] steps[i] != seq!['.', '.'],
    ensures
        follow(dirs, steps) == dirs + steps,
    decreases steps.len(),
{
    if steps.len() == 0 {
        assert(dirs + steps =~= dirs);
    } else {
        let rest = steps.drop_first();
        assert forall|i: int| 0 <= i < rest.len() implies #[trigger] rest[i] != seq!['.', '.'] by {
            assert(rest[i] == steps[i + 1]);
        }
        assert(steps[0] != seq!['.', '.']);
        lemma_follow_down(dirs.push(steps[0]), rest);
        assert(dirs.push(steps[0]) + rest =~= dirs + steps);
    }
}

proof fn lemma_follow_up(dirs: Seq<Seq<char>>, count: nat, steps: Seq<Seq<char>>)
    requires
        count <= dirs.len(),
    ensures
        follow(dirs, steps_up(count) + steps) == follow(dirs.take(dirs.len() - count), steps),
    decreases count,
{
    if count == 0 {
        assert(steps_up(count) + steps =~= steps);
        assert(dirs.take(dirs.len() - count) =~= dirs);
    } else {
        let all = steps_up(count) + steps;
        assert(all[0] == seq!['.', '.']);
        assert(all.drop_first() =~= steps_up((count - 1) as nat) + steps);
        lemma_follow_up(dirs.drop_last(), (count - 1) as nat, steps);
        assert(dirs.drop_last().take(dirs.drop_last().len() - (count - 1)) =~= dirs.take(
            dirs.len() - count,
        ));
    }
}

proof fn lemma_common_prefix(a: Seq<Seq<char>>, b: Seq<Seq<char>>, from: int)
    requires
        0 <= from <= a.len(),
        from <= b.len(),
    ensures
        from <= common_prefix(a, b, from) <= a.len(),
        common_prefix(a, b, from) <= b.len(),
        forall|i: int| from <= i < common_prefix(a, b, from) ==> a[i] == b[i],
    decreases a.len() - from,
{
    if from < a.len() && from < b.len() && a[from] == b[from] {
        lemma_common_prefix(a, b, from + 1);
    }
}

/// The relative path leads where it should: who starts in the directory of
/// the file `from` and follows the relative path to `to`, step by step,
/// ends at `to`. This holds where no component of `to` is `..`.
pub proof fn lemma_relative_path_leads_to(from: Seq<char>, to: Seq<char>)
    requires
        forall|i: int| 0 <= i < components(to).len() ==> #[trigger] components(to)[i] != seq!['.', '.'],
    ensures
        follow(directories(from), components(relative_path(from, to))) == components(to),
{
    lemma_components_len(from);
    lemma_components_len(to);
    lemma_components_have_no_slash(to);
    let dirs = directories(from);
    let target = components(to);
    lemma_common_prefix(dirs, directories(to), 0);
    let shared = common_prefix(dirs, directories(to), 0);
    let rest = target.skip(shared);
    let count = (dirs.len() - shared) as nat;
    assert forall|i: int| 0 <= i < rest.len() implies has_no_slash(#[trigger] rest[i]) by {
        assert(rest[i] == target[i + shared]);
    }
    lemma_components_of_join(rest);
    lemma_components_after_ascent(count, join(rest));
    lemma_follow_up(dirs, count, rest);
    assert forall|i: int| 0 <= i < rest.len() implies #[trigger] rest[i] != seq!['.', '.'] by {
        assert(rest[i] == target[i + shared]);
    }
    lemma_follow_down(dirs.take(shared), rest);
    assert(dirs.take(shared) =~= target.take(shared)) by {
        assert forall|i: int| 0 <= i < shared implies dirs[i] == target[i] by {
            assert(directories(to)[i] == target[i]);
        }
    }
    assert(target.take(shared) + rest =~= target);
}

} // verus!
