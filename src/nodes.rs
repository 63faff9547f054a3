//! The participant registry: distinct names, each in the column where it
//! was first seen.
use vstd::prelude::*;
use crate::text::{str_eq, trim, trim_str};

verus! {

/// The registry after `x` is offered to `s`: unchanged when `x` is already
/// there, else `x` appended as a new column.
pub open spec fn add_name(s: Seq<Seq<char>>, x: Seq<char>) -> Seq<Seq<char>> {
    if s.contains(x) {
        s
    } else {
        s.push(x)
    }
}

/// The registry that a run of `add` calls with `adds` builds from empty.
pub open spec fn registry_after(adds: Seq<Seq<char>>) -> Seq<Seq<char>>
    decreases adds.len(),
{
    if adds.len() == 0 {
        Seq::empty()
    } else {
        add_name(registry_after(adds.drop_last()), trim(adds.last()))
    }
}

/// The position at which `x` first occurs in `s` (meaningful when it does).
pub open spec fn first_at(s: Seq<Seq<char>>, x: Seq<char>) -> int
    decreases s.len(),
{
    if s.len() == 0 {
        0
    } else if s.drop_last().contains(x) {
        first_at(s.drop_last(), x)
    } else {
        s.len() - 1
    }
}

/// One framed header cell; the last one closes the row.
pub open spec fn header_cell(name: Seq<char>, last: bool) -> Seq<char> {
    "  *+[F]{\\txt{"@ + name + "}} "@ + (if last {
        "\\\\"@
    } else {
        "&"@
    }) + "\n"@
}

/// The header cells of the first `k` names of `names`.
pub open spec fn header_upto(names: Seq<Seq<char>>, k: nat) -> Seq<char>
    decreases k,
{
    if k == 0 {
        Seq::empty()
    } else {
        header_upto(names, (k - 1) as nat) + header_cell(
            names[k - 1],
            k == names.len(),
        )
    }
}

/// The header row: one framed box per participant, in column order.
pub open spec fn header(names: Seq<Seq<char>>) -> Seq<char> {
    header_upto(names, names.len())
}

/// Participant names in order of first appearance.
pub struct Nodes {
    all: Vec<String>,
}

impl View for Nodes {
    type V = Seq<Seq<char>>;

    closed spec fn view(&self) -> Seq<Seq<char>> {
        self.all@.map_values(|s: String| s@)
    }
}

impl Nodes {
    /// No name is registered twice.
    pub open spec fn wf(&self) -> bool {
        self@.no_duplicates()
    }

    pub fn new() -> (r: Nodes)
        ensures
            r@ == Seq::<Seq<char>>::empty(),
            r.wf(),
    {
        let r = Nodes { all: Vec::new() };
        assert(r@ =~= Seq::<Seq<char>>::empty());
        r
    }

    /// Registers `n` with surrounding whitespace removed, unless that name
    /// is already present.
    pub fn add(&mut self, n: &str)
        requires
            old(self).wf(),
        ensures
            final(self).wf(),
            final(self)@ == add_name(old(self)@, trim(n@)),
    {
        let t = trim_str(n);
        if self.find(t).is_none() {
            self.all.push(t.to_owned());
            assert(self@ =~= old(self)@.push(t@));
        }
    }

    /// The number of participants.
    pub fn len(&self) -> (r: usize)
        ensures
            r == self@.len(),
    {
        self.all.len()
    }

    /// The name in column `i`.
    pub fn name(&self, i: usize) -> (r: &str)
        requires
            i < self@.len(),
        ensures
            r@ == self@[i as int],
    {
        self.all[i].as_str()
    }

    /// The column of a registered name.
    pub fn index_of(&self, n: &str) -> (r: usize)
        requires
            self@.contains(n@),
        ensures
            r < self@.len(),
            self@[r as int] == n@,
            forall|j: int| 0 <= j < r ==> self@[j] != n@,
            r == first_at(self@, n@),
    {
        let len = self.all.len();
        let mut i: usize = 0;
        while i < len
            invariant
                len == self@.len(),
                i <= len,
                self@.contains(n@),
                forall|j: int| 0 <= j < i ==> self@[j] != n@,
            decreases len - i,
        {
            if str_eq(self.all[i].as_str(), n) {
                proof {
                    lemma_first_at_is(self@, n@, i as int);
                }
                return i;
            }
            i = i + 1;
        }
        assert(false);
        0
    }

    /// Looks a name up, giving `None` when it is not registered.
    pub fn find(&self, n: &str) -> (r: Option<usize>)
        ensures
            match r {
                Some(i) => i < self@.len() && self@[i as int] == n@ && (forall|j: int|
                    0 <= j < i ==> self@[j] != n@) && i == first_at(self@, n@),
                None => !self@.contains(n@),
            },
    {
        let len = self.all.len();
        let mut i: usize = 0;
        while i < len
            invariant
                len == self@.len(),
                i <= len,
                forall|j: int| 0 <= j < i ==> self@[j] != n@,
            decreases len - i,
        {
            if str_eq(self.all[i].as_str(), n) {
                proof {
                    lemma_first_at_is(self@, n@, i as int);
                }
                return Some(i);
            }
            i = i + 1;
        }
        None
    }

    /// Appends the header row to `out`.
    pub fn print(&self, out: &mut String)
        ensures
            final(out)@ == old(out)@ + header(self@),
    {
        let len = self.all.len();
        let mut i: usize = 0;
        while i < len
            invariant
                len == self@.len(),
                i <= len,
                out@ == old(out)@ + header_upto(self@, i as nat),
            decreases len - i,
        {
            out.append("  *+[F]{\\txt{");
            out.append(self.all[i].as_str());
            out.append("}} ");
            if i + 1 == len {
                out.append("\\\\");
            } else {
                out.append("&");
            }
            out.append("\n");
            i = i + 1;
            assert(out@ =~= old(out)@ + header_upto(self@, i as nat));
        }
    }
}

/// Whatever names are added, the registry holds each trimmed name exactly
/// once, holds nothing else, and orders its columns by first occurrence, so
/// that a name's column is its position among the distinct names in the
/// order they first appeared.
pub proof fn lemma_registry_order(adds: Seq<Seq<char>>)
    ensures
        registry_after(adds).no_duplicates(),
        forall|x: Seq<char>|
            registry_after(adds).contains(x) <==> adds.map_values(|a: Seq<char>| trim(a)).contains(
                x,
            ),
        forall|j: int, k: int|
            0 <= j < k < registry_after(adds).len() ==> first_at(
                adds.map_values(|a: Seq<char>| trim(a)),
                registry_after(adds)[j],
            ) < first_at(adds.map_values(|a: Seq<char>| trim(a)), registry_after(adds)[k]),
    decreases adds.len(),
{
    let t = adds.map_values(|a: Seq<char>| trim(a));
    if adds.len() > 0 {
        let prev = adds.drop_last();
        lemma_registry_order(prev);
        let r0 = registry_after(prev);
        let t0 = prev.map_values(|a: Seq<char>| trim(a));
        assert(t.drop_last() =~= t0);
        let x = trim(adds.last());
        assert(t.last() == x);
        assert forall|y: Seq<char>| #[trigger] t.contains(y) <==> t0.contains(y) || y == x by {
            if t.contains(y) {
                let i = choose|i: int| 0 <= i < t.len() && t[i] == y;
                if i < t.len() - 1 {
                    assert(t0[i] == y);
                }
            }
            if t0.contains(y) {
                let i = choose|i: int| 0 <= i < t0.len() && t0[i] == y;
                assert(t[i] == y);
            }
            if y == x {
                assert(t[t.len() - 1] == y);
            }
        }
        assert forall|y: Seq<char>| t0.contains(y) implies first_at(t, y) == first_at(t0, y) by {
            assert(t.drop_last().contains(y));
        }
        if !r0.contains(x) {
            let r = r0.push(x);
            assert(!t0.contains(x));
            assert(first_at(t, x) == t.len() - 1);
            assert forall|y: Seq<char>| t0.contains(y) implies first_at(t0, y) < t0.len() by {
                lemma_first_at_bound(t0, y);
            }
            assert forall|j: int, k: int| 0 <= j < k < r.len() implies first_at(t, r[j]) < first_at(
                t,
                r[k],
            ) by {
                assert(r0.contains(r[j]));
                if k < r0.len() {
                    assert(r0.contains(r[k]));
                }
            }
            assert forall|y: Seq<char>| r.contains(y) <==> t.contains(y) by {
                if r.contains(y) && y != x {
                    let i = choose|i: int| 0 <= i < r.len() && r[i] == y;
                    assert(r0[i] == y);
                }
                if r0.contains(y) {
                    let i = choose|i: int| 0 <= i < r0.len() && r0[i] == y;
                    assert(r[i] == y);
                }
                if y == x {
                    assert(r[r.len() - 1] == y);
                }
            }
        } else {
            assert forall|j: int| 0 <= j < r0.len() implies t0.contains(#[trigger] r0[j]) by {
                assert(r0.contains(r0[j]));
            }
        }
    } else {
        assert(t.len() == 0);
    }
}

proof fn lemma_first_at_is(s: Seq<Seq<char>>, x: Seq<char>, i: int)
    requires
        0 <= i < s.len(),
        s[i] == x,
        forall|j: int| 0 <= j < i ==> s[j] != x,
    ensures
        first_at(s, x) == i,
    decreases s.len(),
{
    if i < s.len() - 1 {
        assert(s.drop_last()[i] == x);
        lemma_first_at_is(s.drop_last(), x, i);
    } else {
        if s.drop_last().contains(x) {
            let j = choose|j: int| 0 <= j < s.drop_last().len() && s.drop_last()[j] == x;
            assert(s[j] == x);
        }
    }
}

/// A name that occurs has its first position in range, and stands there.
pub proof fn lemma_first_at_bound(s: Seq<Seq<char>>, x: Seq<char>)
    requires
        s.contains(x),
    ensures
        0 <= first_at(s, x) < s.len(),
        s[first_at(s, x)] == x,
    decreases s.len(),
{
    if s.drop_last().contains(x) {
        lemma_first_at_bound(s.drop_last(), x);
    } else {
        let i = choose|i: int| 0 <= i < s.len() && s[i] == x;
        if i < s.len() - 1 {
            assert(s.drop_last()[i] == x);
        }
    }
}

} // verus!

verus! {

/// Offering a name keeps every registered name and registers the offered one.
pub proof fn lemma_add_name_keeps(s: Seq<Seq<char>>, x: Seq<char>)
    ensures
        add_name(s, x).contains(x),
        forall|y: Seq<char>| s.contains(y) ==> add_name(s, x).contains(y),
        s.no_duplicates() ==> add_name(s, x).no_duplicates(),
{
    if !s.contains(x) {
        assert(s.push(x)[s.len() as int] == x);
        assert forall|y: Seq<char>| s.contains(y) implies add_name(s, x).contains(y) by {
            let i = choose|i: int| 0 <= i < s.len() && s[i] == y;
            assert(s.push(x)[i] == y);
        }
    }
}

} // verus!

verus! {

proof fn lemma_registry_prefix(adds: Seq<Seq<char>>, m: int)
    requires
        0 <= m <= adds.len(),
    ensures
        registry_after(adds.take(m)).len() <= registry_after(adds).len(),
        forall|k: int|
            0 <= k < registry_after(adds.take(m)).len() ==> registry_after(adds)[k]
                == registry_after(adds.take(m))[k],
    decreases adds.len(),
{
    if m < adds.len() {
        lemma_registry_prefix(adds.drop_last(), m);
        assert(adds.drop_last().take(m) =~= adds.take(m));
    } else {
        assert(adds.take(m) =~= adds);
    }
}

/// The column of a name is the number of distinct names added before its
/// first occurrence: the registry's size just before that occurrence.
pub proof fn lemma_registry_column(adds: Seq<Seq<char>>, j: int)
    requires
        0 <= j < adds.len(),
        !adds.take(j).map_values(|a: Seq<char>| trim(a)).contains(trim(adds[j])),
    ensures
        registry_after(adds.take(j)).len() == adds.take(j).map_values(
            |a: Seq<char>| trim(a),
        ).to_set().len(),
        registry_after(adds.take(j)).len() < registry_after(adds).len(),
        registry_after(adds)[registry_after(adds.take(j)).len() as int] == trim(adds[j]),
{
    let pre = adds.take(j);
    let tp = pre.map_values(|a: Seq<char>| trim(a));
    let r = registry_after(pre);
    lemma_registry_order(pre);
    r.unique_seq_to_set();
    assert(r.to_set() =~= tp.to_set());
    assert(adds.take(j + 1).drop_last() =~= pre);
    assert(adds.take(j + 1).last() == adds[j]);
    assert(!r.contains(trim(adds[j])));
    assert(registry_after(adds.take(j + 1)) == r.push(trim(adds[j])));
    lemma_registry_prefix(adds, j + 1);
    assert(r.push(trim(adds[j]))[r.len() as int] == trim(adds[j]));
}

} // verus!
