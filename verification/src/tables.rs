//! Name tables of the analyser: names bound to indices, looked up by the
//! characters of the name.
use vstd::prelude::*;

use crate::text::same_text;

verus! {

/// A name bound to an index.
pub struct NamedIndex {
    pub name: String,
    pub index: usize,
}

/// The index bound to `name` in `t`, the earliest binding first.
pub open spec fn lookup(t: Seq<NamedIndex>, name: Seq<char>) -> Option<usize>
    decreases t.len(),
{
    if t.len() == 0 {
        None
    } else if t[0].name@ == name {
        Some(t[0].index)
    } else {
        lookup(t.drop_first(), name)
    }
}

/// The names of `t`, in order.
pub open spec fn names(t: Seq<NamedIndex>) -> Seq<Seq<char>> {
    t.map_values(|e: NamedIndex| e.name@)
}

/// Every index bound in `t` is below `n`.
pub open spec fn indices_below(t: Seq<NamedIndex>, n: nat) -> bool {
    forall|i: int| 0 <= i < t.len() ==> (#[trigger] t[i].index as int) < n
}

pub proof fn lemma_lookup_found(t: Seq<NamedIndex>, name: Seq<char>)
    ensures
        lookup(t, name) is Some <==> names(t).contains(name),
        lookup(t, name) matches Some(x) ==> exists|i: int| 0 <= i < t.len() && t[i].index == x && t[i].name@ == name,
    decreases t.len(),
{
    if t.len() > 0 {
        lemma_lookup_found(t.drop_first(), name);
        if t[0].name@ == name {
            assert(names(t)[0] == name);
        } else {
            if names(t).contains(name) {
                let i = choose|i: int| 0 <= i < names(t).len() && names(t)[i] == name;
                assert(i > 0);
                assert(names(t.drop_first())[i - 1] == name);
            }
            if names(t.drop_first()).contains(name) {
                let i = choose|i: int| 0 <= i < names(t.drop_first()).len() && names(t.drop_first())[i] == name;
                assert(names(t)[i + 1] == name);
            }
            if let Some(x) = lookup(t, name) {
                let i = choose|i: int| 0 <= i < t.drop_first().len() && t.drop_first()[i].index == x && t.drop_first()[i].name@ == name;
                assert(t[i + 1] == t.drop_first()[i]);
            }
        }
    }
}

pub proof fn lemma_lookup_below(t: Seq<NamedIndex>, name: Seq<char>, n: nat)
    requires
        indices_below(t, n),
    ensures
        lookup(t, name) matches Some(x) ==> (x as int) < n,
{
    lemma_lookup_found(t, name);
}

pub proof fn lemma_lookup_push(t: Seq<NamedIndex>, e: NamedIndex, name: Seq<char>)
    ensures
        lookup(t.push(e), name) == (if lookup(t, name) is Some {
            lookup(t, name)
        } else if e.name@ == name {
            Some(e.index)
        } else {
            None
        }),
    decreases t.len(),
{
    if t.len() > 0 {
        assert(t.push(e).drop_first() =~= t.drop_first().push(e));
        assert(t.push(e)[0] == t[0]);
        lemma_lookup_push(t.drop_first(), e, name);
    } else {
        assert(t.push(e).drop_first() =~= Seq::<NamedIndex>::empty());
        assert(t.push(e)[0] == e);
        assert(lookup(Seq::<NamedIndex>::empty(), name) is None);
    }
}

/// A name bound in `t` stays bound in a table that begins with `t`.
pub proof fn lemma_lookup_prefix(t: Seq<NamedIndex>, u: Seq<NamedIndex>, name: Seq<char>)
    requires
        t.len() <= u.len(),
        u.subrange(0, t.len() as int) == t,
        lookup(t, name) is Some,
    ensures
        lookup(u, name) == lookup(t, name),
    decreases t.len(),
{
    assert(u[0] == t[0]);
    if t[0].name@ != name {
        assert(u.drop_first().subrange(0, t.drop_first().len() as int) =~= t.drop_first());
        lemma_lookup_prefix(t.drop_first(), u.drop_first(), name);
    }
}

/// The index bound to `name` in `t`.
pub fn find_name(t: &Vec<NamedIndex>, name: &str) -> (r: Option<usize>)
    ensures
        r == lookup(t@, name@),
{
    let mut i: usize = 0;
    assert(t@.skip(0) =~= t@);
    while i < t.len()
        invariant
            i <= t@.len(),
            lookup(t@, name@) == lookup(t@.skip(i as int), name@),
        decreases t@.len() - i,
    {
        assert(t@.skip(i as int).drop_first() =~= t@.skip(i + 1));
        if same_text(t[i].name.as_str(), name) {
            return Some(t[i].index);
        }
        i = i + 1;
    }
    assert(t@.skip(i as int) =~= Seq::<NamedIndex>::empty());
    None
}

/// Binds `name` to `index` at the end of `t`.
pub fn bind_name(t: &mut Vec<NamedIndex>, name: &str, index: usize)
    ensures
        final(t)@ == old(t)@.push(NamedIndex { name: final(t)@.last().name, index }),
        final(t)@.last().name@ == name@,
{
    t.push(NamedIndex { name: name.to_owned(), index });
}

} // verus!
