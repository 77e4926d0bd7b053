//! Where each note goes: the destination of a source path under the chosen
//! layout, with a table of what was handed out so that no two sources ever
//! share a destination.

use vstd::prelude::*;
use crate::text::{chars_of, extend_chars, slice_chars, string_of};

verus! {

/// How the output tree is laid out.
#[derive(Clone, Copy, Debug, PartialEq, Eq, Structural)]
pub enum Layout {
    /// Destinations mirror the directories of the sources.
    Hierarchy,
    /// Every destination lies directly under the destination root.
    Flat,
}

/// The position of the last `c` in `s`, or -1.
pub open spec fn last_index_of(s: Seq<char>, c: char) -> int
    decreases s.len(),
{
    if s.len() == 0 {
        -1
    } else if s.last() == c {
        s.len() - 1
    } else {
        last_index_of(s.drop_last(), c)
    }
}

/// `last_index_of` lands on `c`, or gives -1.
pub proof fn lemma_last_index_of(s: Seq<char>, c: char)
    ensures
        -1 <= last_index_of(s, c) < s.len(),
        last_index_of(s, c) >= 0 ==> s[last_index_of(s, c)] == c,
    decreases s.len(),
{
    if s.len() > 0 && s.last() != c {
        lemma_last_index_of(s.drop_last(), c);
    }
}

/// Where the extension of `path` begins: at the last dot of the file name,
/// unless the file name starts with it; at the end if there is no such dot.
pub open spec fn stem_end(path: Seq<char>) -> int {
    let dot = last_index_of(path, '.');
    let slash = last_index_of(path, '/');
    if dot > slash + 1 {
        dot
    } else {
        path.len() as int
    }
}

/// `path` without its extension.
pub open spec fn stem(path: Seq<char>) -> Seq<char> {
    path.take(stem_end(path))
}

/// The extension of `path`, with its dot; empty if it has none.
pub open spec fn extension(path: Seq<char>) -> Seq<char> {
    path.skip(stem_end(path))
}

/// An ASCII capital as its small letter; any other character as it is.
pub open spec fn lower(c: char) -> char {
    if 'A' <= c <= 'Z' {
        ((c as u8) + 32) as char
    } else {
        c
    }
}

/// `s` with its ASCII capitals made small.
pub open spec fn lower_all(s: Seq<char>) -> Seq<char> {
    Seq::new(s.len(), |i: int| lower(s[i]))
}

/// `path` with its extension in small letters.
pub open spec fn normalized(path: Seq<char>) -> Seq<char> {
    stem(path) + lower_all(extension(path))
}

/// The destination a source gets when nothing else has claimed it: under
/// `Hierarchy` the source path with its extension normalized, under `Flat`
/// the file name of that.
pub open spec fn base_destination(source: Seq<char>, layout: Layout) -> Seq<char> {
    match layout {
        Layout::Hierarchy => normalized(source),
        Layout::Flat => normalized(source).skip(last_index_of(normalized(source), '/') + 1),
    }
}

pub open spec fn digit(d: nat) -> char {
    if d == 0 {
        '0'
    } else if d == 1 {
        '1'
    } else if d == 2 {
        '2'
    } else if d == 3 {
        '3'
    } else if d == 4 {
        '4'
    } else if d == 5 {
        '5'
    } else if d == 6 {
        '6'
    } else if d == 7 {
        '7'
    } else if d == 8 {
        '8'
    } else {
        '9'
    }
}

/// The decimal digits of `n`, most significant first.
pub open spec fn digits(n: nat) -> Seq<char>
    decreases n,
{
    if n < 10 {
        seq![digit(n)]
    } else {
        digits(n / 10).push(digit(n % 10))
    }
}

/// The `k`-th name tried for a destination: `base` itself, then `base` with
/// `-1`, `-2`, ... put before its extension.
pub open spec fn candidate(base: Seq<char>, k: nat) -> Seq<char> {
    if k == 0 {
        base
    } else {
        stem(base) + seq!['-'] + digits(k) + extension(base)
    }
}

/// `k` is the first index whose candidate is not among `taken`.
pub open spec fn is_first_free(taken: Seq<Seq<char>>, base: Seq<char>, k: nat) -> bool {
    &&& !taken.contains(candidate(base, k))
    &&& forall|j: nat| j < k ==> taken.contains(#[trigger] candidate(base, j))
}

/// The first index whose candidate is not among `taken`.
pub open spec fn first_free(taken: Seq<Seq<char>>, base: Seq<char>) -> nat {
    choose|k: nat| is_first_free(taken, base, k)
}

/// The position of `source` among `sources`, or -1.
pub open spec fn position_of(sources: Seq<Seq<char>>, source: Seq<char>) -> int
    decreases sources.len(),
{
    if sources.len() == 0 {
        -1
    } else if sources.last() == source {
        sources.len() - 1
    } else {
        position_of(sources.drop_last(), source)
    }
}

/// `position_of` lands on `source`, and gives -1 only where `source` is not
/// among `sources`.
pub proof fn lemma_position_of(sources: Seq<Seq<char>>, source: Seq<char>)
    ensures
        -1 <= position_of(sources, source) < sources.len(),
        position_of(sources, source) >= 0 ==> sources[position_of(sources, source)] == source,
        position_of(sources, source) < 0 ==> !sources.contains(source),
    decreases sources.len(),
{
    if sources.len() > 0 && sources.last() != source {
        lemma_position_of(sources.drop_last(), source);
        assert forall|i: int| 0 <= i < sources.len() implies sources[i] != source
            || position_of(sources, source) >= 0 by {
            if i < sources.len() - 1 {
                assert(sources.drop_last()[i] == sources[i]);
            }
        }
    }
}

/// Computes `last_index_of`; `None` stands for -1.
pub fn last_index(v: &Vec<char>, c: char) -> (r: Option<usize>)
    ensures
        match r {
            Some(i) => i == last_index_of(v@, c) && i < v.len(),
            None => last_index_of(v@, c) == -1,
        },
{
    let mut i: usize = v.len();
    assert(v@.take(i as int) =~= v@);
    while i > 0
        invariant
            i <= v.len(),
            last_index_of(v@, c) == last_index_of(v@.take(i as int), c),
        decreases i,
    {
        if v[i - 1] == c {
            return Some(i - 1);
        }
        assert(v@.take(i as int).drop_last() =~= v@.take(i - 1));
        i = i - 1;
    }
    None
}

/// Computes `stem_end`.
pub fn stem_end_of(path: &Vec<char>) -> (r: usize)
    ensures
        r == stem_end(path@),
        r <= path.len(),
{
    proof {
        lemma_last_index_of(path@, '.');
        lemma_last_index_of(path@, '/');
    }
    match last_index(path, '.') {
        None => path.len(),
        Some(dot) => match last_index(path, '/') {
            None => if dot > 0 {
                dot
            } else {
                path.len()
            },
            Some(slash) => if dot > slash + 1 {
                dot
            } else {
                path.len()
            },
        },
    }
}

/// Computes `lower`.
pub fn lower_char(c: char) -> (r: char)
    ensures
        r == lower(c),
{
    if 'A' <= c && c <= 'Z' {
        ((c as u8) + 32) as char
    } else {
        c
    }
}

/// Computes `normalized`.
pub fn normalize(path: &Vec<char>) -> (r: Vec<char>)
    ensures
        r@ == normalized(path@),
{
    let end = stem_end_of(path);
    let mut r = slice_chars(path, 0, end);
    assert(path@.subrange(0, end as int) =~= stem(path@));
    let mut i: usize = end;
    while i < path.len()
        invariant
            end <= i <= path.len(),
            end == stem_end(path@),
            r@ == stem(path@) + lower_all(extension(path@)).take(i - end),
        decreases path.len() - i,
    {
        r.push(lower_char(path[i]));
        i = i + 1;
        assert(r@ =~= stem(path@) + lower_all(extension(path@)).take(i - end));
    }
    assert(lower_all(extension(path@)).take(i - end) =~= lower_all(extension(path@)));
    r
}

/// Computes `base_destination`.
pub fn base_of(source: &Vec<char>, layout: Layout) -> (r: Vec<char>)
    ensures
        r@ == base_destination(source@, layout),
{
    let whole = normalize(source);
    match layout {
        Layout::Hierarchy => whole,
        Layout::Flat => {
            proof {
                lemma_last_index_of(whole@, '/');
            }
            let start = match last_index(&whole, '/') {
                Some(slash) => slash + 1,
                None => 0,
            };
            let r = slice_chars(&whole, start, whole.len());
            assert(whole@.subrange(start as int, whole.len() as int) =~= whole@.skip(start as int));
            r
        },
    }
}

fn digit_char(d: usize) -> (c: char)
    requires
        d < 10,
    ensures
        c == digit(d as nat),
{
    if d == 0 {
        '0'
    } else if d == 1 {
        '1'
    } else if d == 2 {
        '2'
    } else if d == 3 {
        '3'
    } else if d == 4 {
        '4'
    } else if d == 5 {
        '5'
    } else if d == 6 {
        '6'
    } else if d == 7 {
        '7'
    } else if d == 8 {
        '8'
    } else {
        '9'
    }
}

/// Appends the decimal digits of `n` to `out`.
pub fn push_digits(out: &mut Vec<char>, n: usize)
    ensures
        final(out)@ == old(out)@ + digits(n as nat),
    decreases n,
{
    if n < 10 {
        out.push(digit_char(n));
        assert(out@ =~= old(out)@ + digits(n as nat));
    } else {
        push_digits(out, n / 10);
        out.push(digit_char(n % 10));
        assert(out@ =~= old(out)@ + digits(n as nat));
    }
}

/// Computes `candidate`.
pub fn candidate_of(base: &Vec<char>, k: usize) -> (r: Vec<char>)
    ensures
        r@ == candidate(base@, k as nat),
{
    if k == 0 {
        let r = slice_chars(base, 0, base.len());
        assert(base@.subrange(0, base.len() as int) =~= base@);
        r
    } else {
        let end = stem_end_of(base);
        let mut r = slice_chars(base, 0, end);
        r.push('-');
        push_digits(&mut r, k);
        let tail = slice_chars(base, end, base.len());
        extend_chars(&mut r, &tail);
        assert(r@ =~= candidate(base@, k as nat));
        r
    }
}

/// Every number has a digit, and every number from ten on has two.
pub proof fn lemma_digits_len(n: nat)
    ensures
        digits(n).len() >= 1,
        n >= 10 ==> digits(n).len() >= 2,
    decreases n,
{
    if n >= 10 {
        lemma_digits_len(n / 10);
    }
}

/// Different numbers have different digits.
pub proof fn lemma_digits_injective(a: nat, b: nat)
    requires
        digits(a) == digits(b),
    ensures
        a == b,
    decreases a,
{
    lemma_digits_len(a);
    lemma_digits_len(b);
    if a < 10 {
        assert(digits(a).len() == 1);
        assert(b < 10);
        assert(digits(a)[0] == digit(a));
        assert(digits(b)[0] == digit(b));
    } else {
        assert(b >= 10);
        assert(digits(a).last() == digit(a % 10));
        assert(digits(b).last() == digit(b % 10));
        assert(digits(a).drop_last() =~= digits(a / 10));
        assert(digits(b).drop_last() =~= digits(b / 10));
        lemma_digits_injective(a / 10, b / 10);
        assert(a % 10 == b % 10);
    }
}

/// Different indices give different candidates.
pub proof fn lemma_candidates_differ(base: Seq<char>, i: nat, j: nat)
    requires
        i != j,
    ensures
        candidate(base, i) != candidate(base, j),
{
    lemma_last_index_of(base, '.');
    lemma_last_index_of(base, '/');
    lemma_digits_len(i);
    lemma_digits_len(j);
    let head = stem(base) + seq!['-'];
    assert(base =~= stem(base) + extension(base));
    if i != 0 && j != 0 {
        if candidate(base, i) == candidate(base, j) {
            let a = candidate(base, i);
            let b = candidate(base, j);
            assert(a.len() == head.len() + digits(i).len() + extension(base).len());
            assert(b.len() == head.len() + digits(j).len() + extension(base).len());
            assert(a.subrange(head.len() as int, (head.len() + digits(i).len()) as int) =~= digits(i));
            assert(b.subrange(head.len() as int, (head.len() + digits(j).len()) as int) =~= digits(j));
            lemma_digits_injective(i, j);
        }
    } else if i != 0 {
        assert(candidate(base, i).len() == head.len() + digits(i).len() + extension(base).len());
    } else {
        assert(candidate(base, j).len() == head.len() + digits(j).len() + extension(base).len());
    }
}

/// Of more different names than `taken` holds, one is not among `taken`.
pub proof fn lemma_one_is_free(names: Seq<Seq<char>>, taken: Seq<Seq<char>>)
    requires
        names.len() == taken.len() + 1,
        forall|i: int, j: int| 0 <= i < j < names.len() ==> names[i] != names[j],
    ensures
        exists|k: int| 0 <= k < names.len() && !taken.contains(#[trigger] names[k]),
    decreases taken.len(),
{
    let n = taken.len() as int;
    if n == 0 {
        assert(!taken.contains(names[0]));
    } else {
        let fewer = taken.drop_last();
        let last = taken.last();
        assert forall|x: Seq<char>| !fewer.contains(x) && x != last implies !taken.contains(x) by {
            if taken.contains(x) {
                let at = choose|at: int| 0 <= at < taken.len() && taken[at] == x;
                if at < n - 1 {
                    assert(fewer[at] == x);
                }
            }
        }
        let front = names.take(n);
        lemma_one_is_free(front, fewer);
        let k = choose|k: int| 0 <= k < front.len() && !fewer.contains(#[trigger] front[k]);
        if names[k] != last {
            assert(!taken.contains(names[k]));
        } else {
            let swapped = front.update(k, names[n]);
            assert forall|i: int, j: int| 0 <= i < j < swapped.len() implies swapped[i]
                != swapped[j] by {
                assert(names[i] != names[j]);
                assert(names[i] != names[n]);
                assert(names[j] != names[n]);
            }
            lemma_one_is_free(swapped, fewer);
            let m = choose|m: int| 0 <= m < swapped.len() && !fewer.contains(#[trigger] swapped[m]);
            let other = if m == k {
                n
            } else {
                m
            };
            assert(swapped[m] == names[other]);
            if other < k {
                assert(names[other] != names[k]);
            } else {
                assert(names[k] != names[other]);
            }
            assert(!taken.contains(names[other]));
        }
    }
}

/// If every candidate below `k` is taken, then `k` is at most the number of
/// names taken.
pub proof fn lemma_taken_run_is_short(taken: Seq<Seq<char>>, base: Seq<char>, k: nat)
    requires
        forall|j: nat| j < k ==> taken.contains(#[trigger] candidate(base, j)),
    ensures
        k <= taken.len(),
{
    if k > taken.len() {
        let names = Seq::new(taken.len() + 1, |i: int| candidate(base, i as nat));
        assert forall|i: int, j: int| 0 <= i < j < names.len() implies names[i] != names[j] by {
            lemma_candidates_differ(base, i as nat, j as nat);
        }
        lemma_one_is_free(names, taken);
        let free = choose|free: int| 0 <= free < names.len() && !taken.contains(#[trigger] names[free]);
        assert(taken.contains(candidate(base, free as nat)));
    }
}

/// There is exactly one first free index.
pub proof fn lemma_first_free_unique(taken: Seq<Seq<char>>, base: Seq<char>, k: nat)
    requires
        is_first_free(taken, base, k),
    ensures
        first_free(taken, base) == k,
{
    let other = first_free(taken, base);
    assert(is_first_free(taken, base, other));
    if other < k {
        assert(taken.contains(candidate(base, other)));
    } else if k < other {
        assert(taken.contains(candidate(base, k)));
    }
}

/// `after` is `before` once `source` has its destination: as `before` if
/// `source` had one, else with `source` and its destination added at the
/// end.
pub open spec fn mapped(before: PathMapper, source: Seq<char>, after: PathMapper) -> bool {
    &&& after.wf()
    &&& after.layout == before.layout
    &&& if position_of(before.sources(), source) >= 0 {
        after.sources() == before.sources() && after.destinations() == before.destinations()
    } else {
        after.sources() == before.sources().push(source) && after.destinations()
            == before.destinations().push(before.destination_of(source))
    }
}

/// `after` holds all that `before` holds, in the same places: what was
/// handed out stays handed out.
pub open spec fn keeps(before: PathMapper, after: PathMapper) -> bool {
    &&& after.layout == before.layout
    &&& before.sources().len() <= after.sources().len()
    &&& after.sources().take(before.sources().len() as int) == before.sources()
    &&& after.destinations().take(before.sources().len() as int) == before.destinations()
}

/// A mapper keeps what it holds.
pub proof fn lemma_keeps_itself(mapper: PathMapper)
    ensures
        keeps(mapper, mapper),
{
    let n = mapper.sources().len() as int;
    assert(mapper.destinations().len() == n);
    assert(mapper.sources().take(n) =~= mapper.sources());
    assert(mapper.destinations().take(n) =~= mapper.destinations());
}

/// Mapping a source keeps what was handed out before.
pub proof fn lemma_mapped_keeps(before: PathMapper, source: Seq<char>, after: PathMapper)
    requires
        mapped(before, source, after),
    ensures
        keeps(before, after),
{
    let n = before.sources().len() as int;
    assert(before.destinations().len() == n);
    assert(after.sources().take(n) =~= before.sources());
    assert(after.destinations().take(n) =~= before.destinations());
}

/// What is kept twice over is kept.
pub proof fn lemma_keeps_transitive(first: PathMapper, second: PathMapper, third: PathMapper)
    requires
        keeps(first, second),
        keeps(second, third),
    ensures
        keeps(first, third),
{
    let n = first.sources().len() as int;
    let m = second.sources().len() as int;
    assert(first.destinations().len() == n);
    assert(second.destinations().len() == m);
    assert(third.sources().take(n) =~= third.sources().take(m).take(n));
    assert(third.destinations().take(n) =~= third.destinations().take(m).take(n));
}

/// One source and the destination it was given.
#[derive(Clone, Debug, PartialEq, Eq)]
pub struct Assignment {
    pub source: String,
    pub destination: String,
}

/// The layout of an export run and the destinations handed out so far.
#[derive(Clone, Debug)]
pub struct PathMapper {
    pub layout: Layout,
    pub assigned: Vec<Assignment>,
}

impl PathMapper {
    /// The sources that have a destination, in the order they got it.
    pub open spec fn sources(&self) -> Seq<Seq<char>> {
        Seq::new(self.assigned@.len(), |i: int| self.assigned@[i].source@)
    }

    /// The destinations handed out, in the order they were.
    pub open spec fn destinations(&self) -> Seq<Seq<char>> {
        Seq::new(self.assigned@.len(), |i: int| self.assigned@[i].destination@)
    }

    /// No source occurs twice and no destination occurs twice.
    pub open spec fn wf(&self) -> bool {
        &&& forall|i: int, j: int|
            0 <= i < j < self.assigned@.len() ==> self.assigned@[i].source@
                != self.assigned@[j].source@
        &&& forall|i: int, j: int|
            0 <= i < j < self.assigned@.len() ==> self.assigned@[i].destination@
                != self.assigned@[j].destination@
    }

    /// The destination of `source`: the one it already has, or else the first
    /// candidate that no other source has.
    pub open spec fn destination_of(&self, source: Seq<char>) -> Seq<char> {
        let at = position_of(self.sources(), source);
        if at >= 0 {
            self.destinations()[at]
        } else {
            let base = base_destination(source, self.layout);
            candidate(base, first_free(self.destinations(), base))
        }
    }

    /// The position of `source` in the table, if it has one.
    pub fn position(&self, source: &str) -> (r: Option<usize>)
        ensures
            match r {
                Some(i) => i == position_of(self.sources(), source@) && i < self.assigned.len(),
                None => position_of(self.sources(), source@) == -1,
            },
    {
        let ghost all = self.sources();
        let wanted = source.to_owned();
        let mut i: usize = self.assigned.len();
        assert(all.take(i as int) =~= all);
        while i > 0
            invariant
                i <= self.assigned.len(),
                wanted@ == source@,
                all == self.sources(),
                position_of(all, source@) == position_of(all.take(i as int), source@),
            decreases i,
        {
            if self.assigned[i - 1].source == wanted {
                assert(all.take(i as int).last() == source@);
                return Some(i - 1);
            }
            assert(all.take(i as int).last() != source@);
            assert(all.take(i as int).drop_last() =~= all.take(i - 1));
            i = i - 1;
        }
        None
    }

    /// Whether some source already has `destination`.
    pub fn is_taken(&self, destination: &str) -> (r: bool)
        ensures
            r == self.destinations().contains(destination@),
    {
        let wanted = destination.to_owned();
        let mut i: usize = 0;
        while i < self.assigned.len()
            invariant
                i <= self.assigned.len(),
                wanted@ == destination@,
                forall|j: int| 0 <= j < i ==> self.destinations()[j] != destination@,
            decreases self.assigned.len() - i,
        {
            if self.assigned[i].destination == wanted {
                assert(self.destinations()[i as int] == destination@);
                return true;
            }
            i = i + 1;
        }
        false
    }

    /// The destination of `source`. A source that has one keeps it; a new
    /// source gets the first candidate that no other source has, and the
    /// table remembers it.
    pub fn map(&mut self, source: &str) -> (destination: String)
        requires
            old(self).wf(),
        ensures
            destination@ == old(self).destination_of(source@),
            final(self).destination_of(source@) == destination@,
            mapped(*old(self), source@, *final(self)),
            position_of(old(self).sources(), source@) < 0 ==> !old(self).destinations().contains(
                destination@,
            ),
    {
        proof {
            lemma_position_of(self.sources(), source@);
        }
        match self.position(source) {
            Some(at) => {
                return self.assigned[at].destination.clone();
            },
            None => {},
        }
        let source_chars = chars_of(source);
        let base = base_of(&source_chars, self.layout);
        let ghost taken = self.destinations();
        let count = self.assigned.len();
        let mut k: usize = 0;
        let mut name = string_of(&candidate_of(&base, k));
        while self.is_taken(name.as_str())
            invariant
                taken == self.destinations(),
                self.assigned@ == old(self).assigned@,
                self.layout == old(self).layout,
                k <= taken.len(),
                count == taken.len(),
                name@ == candidate(base@, k as nat),
                forall|j: nat| j < k ==> taken.contains(#[trigger] candidate(base@, j)),
            decreases taken.len() - k,
        {
            proof {
                lemma_taken_run_is_short(taken, base@, (k + 1) as nat);
            }
            k = k + 1;
            name = string_of(&candidate_of(&base, k));
        }
        proof {
            lemma_first_free_unique(taken, base@, k as nat);
        }
        let ghost before = *self;
        self.assigned.push(Assignment { source: source.to_owned(), destination: name.clone() });
        proof {
            assert(self.sources() =~= before.sources().push(source@));
            assert(self.destinations() =~= before.destinations().push(name@));
            assert forall|i: int, j: int| 0 <= i < j < self.assigned@.len() implies self.assigned@[i].source@
                != self.assigned@[j].source@ by {
                if j == self.assigned@.len() - 1 {
                    assert(before.sources()[i] == self.assigned@[i].source@);
                }
            }
            assert forall|i: int, j: int| 0 <= i < j < self.assigned@.len() implies self.assigned@[i].destination@
                != self.assigned@[j].destination@ by {
                if j == self.assigned@.len() - 1 {
                    assert(before.destinations()[i] == self.assigned@[i].destination@);
                }
            }
            assert(self.sources().drop_last() =~= before.sources());
        }
        name
    }

    /// A mapper that has handed out nothing yet.
    pub fn new(layout: Layout) -> (mapper: PathMapper)
        ensures
            mapper.wf(),
            mapper.layout == layout,
            mapper.assigned@.len() == 0,
    {
        PathMapper { layout, assigned: Vec::new() }
    }
}

/// Some index is the first free one: the search for a destination always
/// ends.
pub proof fn lemma_first_free_exists(taken: Seq<Seq<char>>, base: Seq<char>)
    ensures
        is_first_free(taken, base, first_free(taken, base)),
        first_free(taken, base) <= taken.len(),
{
    lemma_free_from(taken, base, 0);
    let k = choose|k: nat| is_first_free(taken, base, k);
    lemma_first_free_unique(taken, base, k);
    assert forall|j: nat| j < k implies taken.contains(#[trigger] candidate(base, j)) by {}
    lemma_taken_run_is_short(taken, base, k);
}

proof fn lemma_free_from(taken: Seq<Seq<char>>, base: Seq<char>, k: nat)
    requires
        forall|j: nat| j < k ==> taken.contains(#[trigger] candidate(base, j)),
    ensures
        exists|free: nat| is_first_free(taken, base, free),
    decreases taken.len() + 1 - k,
{
    lemma_taken_run_is_short(taken, base, k);
    if !taken.contains(candidate(base, k)) {
        assert(is_first_free(taken, base, k));
    } else {
        assert forall|j: nat| j < k + 1 implies taken.contains(#[trigger] candidate(base, j)) by {}
        lemma_taken_run_is_short(taken, base, k + 1);
        lemma_free_from(taken, base, k + 1);
    }
}

/// A source that has a destination keeps it, whatever is mapped after it.
pub proof fn lemma_destination_is_kept(
    before: PathMapper,
    source: Seq<char>,
    other: Seq<char>,
    after: PathMapper,
)
    requires
        before.wf(),
        position_of(before.sources(), source) >= 0,
        mapped(before, other, after),
    ensures
        position_of(after.sources(), source) >= 0,
        after.destination_of(source) == before.destination_of(source),
{
    lemma_position_of(before.sources(), source);
    lemma_position_of(before.sources(), other);
    lemma_position_of(after.sources(), source);
    let at = position_of(before.sources(), source);
    if position_of(before.sources(), other) < 0 {
        assert(after.sources()[at] == source);
    }
    let now = position_of(after.sources(), source);
    if now != at {
        if now < at {
            assert(after.assigned@[now].source@ == after.sources()[now]);
            assert(after.assigned@[at].source@ == after.sources()[at]);
        } else {
            assert(after.assigned@[at].source@ == after.sources()[at]);
            assert(after.assigned@[now].source@ == after.sources()[now]);
        }
    }
}

/// Mapping a source gives it the destination that it is then found under.
pub proof fn lemma_mapping_settles(before: PathMapper, source: Seq<char>, after: PathMapper)
    requires
        before.wf(),
        mapped(before, source, after),
    ensures
        position_of(after.sources(), source) >= 0,
        after.destination_of(source) == before.destination_of(source),
{
    lemma_position_of(before.sources(), source);
    lemma_position_of(after.sources(), source);
    if position_of(before.sources(), source) >= 0 {
        lemma_destination_is_kept(before, source, source, after);
    } else {
        let last = after.sources().len() - 1;
        assert(after.sources()[last] == source);
        let now = position_of(after.sources(), source);
        if now != last {
            assert(after.assigned@[now].source@ == after.sources()[now]);
            assert(after.assigned@[last].source@ == after.sources()[last]);
        }
    }
}

/// Two different sources never get one destination, under either layout.
pub proof fn lemma_destinations_never_collide(
    start: PathMapper,
    first: Seq<char>,
    between: PathMapper,
    second: Seq<char>,
    end: PathMapper,
)
    requires
        start.wf(),
        mapped(start, first, between),
        mapped(between, second, end),
        first != second,
    ensures
        start.destination_of(first) != between.destination_of(second),
{
    lemma_mapping_settles(start, first, between);
    lemma_position_of(between.sources(), first);
    lemma_position_of(between.sources(), second);
    let at = position_of(between.sources(), first);
    assert(between.destinations()[at] == between.assigned@[at].destination@);
    let other = position_of(between.sources(), second);
    if other >= 0 {
        assert(between.destinations()[other] == between.assigned@[other].destination@);
        assert(at != other);
    } else {
        let base = base_destination(second, between.layout);
        lemma_first_free_exists(between.destinations(), base);
    }
}

/// A new source whose base destination nobody has gets that destination:
/// under `Hierarchy` its own path with the extension normalized, under
/// `Flat` the file name of that.
pub proof fn lemma_free_base_is_given(mapper: PathMapper, source: Seq<char>)
    requires
        position_of(mapper.sources(), source) < 0,
        !mapper.destinations().contains(base_destination(source, mapper.layout)),
    ensures
        mapper.destination_of(source) == base_destination(source, mapper.layout),
{
    let base = base_destination(source, mapper.layout);
    assert(is_first_free(mapper.destinations(), base, 0));
    lemma_first_free_unique(mapper.destinations(), base, 0);
}

} // verus!
