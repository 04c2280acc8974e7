//! The table of macros: each name at most once, a later definition
//! replacing an earlier one in place.
use vstd::prelude::*;
use crate::ast::{aliases_view, MacroDef, SMacro};

verus! {

/// The index of the last entry named `name`, or -1.
pub open spec fn alias_pos(a: Seq<(Seq<char>, SMacro)>, name: Seq<char>) -> int
    decreases a.len(),
{
    if a.len() == 0 {
        -1
    } else if a.last().0 == name {
        a.len() - 1
    } else {
        alias_pos(a.drop_last(), name)
    }
}

/// What the table holds under `name`.
pub open spec fn lookup_alias(a: Seq<(Seq<char>, SMacro)>, name: Seq<char>) -> Option<SMacro> {
    if alias_pos(a, name) >= 0 {
        Some(a[alias_pos(a, name)].1)
    } else {
        None
    }
}

/// The table after defining `name`: the entry is replaced where the name
/// already stands, appended otherwise.
pub open spec fn put_alias(a: Seq<(Seq<char>, SMacro)>, name: Seq<char>, m: SMacro) -> Seq<(Seq<char>, SMacro)> {
    if alias_pos(a, name) >= 0 {
        a.update(alias_pos(a, name), (name, m))
    } else {
        a.push((name, m))
    }
}

/// No name occurs twice.
pub open spec fn names_unique(a: Seq<(Seq<char>, SMacro)>) -> bool {
    forall|i: int, j: int| 0 <= i < j < a.len() ==> #[trigger] a[i].0 != #[trigger] a[j].0
}

pub proof fn lemma_alias_pos(a: Seq<(Seq<char>, SMacro)>, name: Seq<char>)
    ensures
        -1 <= alias_pos(a, name) < a.len(),
        alias_pos(a, name) >= 0 ==> a[alias_pos(a, name)].0 == name,
        alias_pos(a, name) < 0 ==> forall|i: int| 0 <= i < a.len() ==> #[trigger] a[i].0 != name,
        forall|i: int| alias_pos(a, name) < i < a.len() ==> #[trigger] a[i].0 != name,
    decreases a.len(),
{
    if a.len() > 0 && a.last().0 != name {
        lemma_alias_pos(a.drop_last(), name);
        assert forall|i: int| alias_pos(a, name) < i < a.len() implies #[trigger] a[i].0 != name by {
            if i < a.len() - 1 {
                assert(a[i] == a.drop_last()[i]);
            }
        }
        if alias_pos(a, name) < 0 {
            assert forall|i: int| 0 <= i < a.len() implies #[trigger] a[i].0 != name by {
                if i < a.len() - 1 {
                    assert(a[i] == a.drop_last()[i]);
                }
            }
        }
    }
}

/// A read after a write gives back what was written.
pub proof fn law_lookup_after_put(a: Seq<(Seq<char>, SMacro)>, name: Seq<char>, m: SMacro)
    ensures
        lookup_alias(put_alias(a, name, m), name) == Some(m),
{
    lemma_alias_pos(a, name);
    let b = put_alias(a, name, m);
    lemma_alias_pos(b, name);
    if alias_pos(a, name) < 0 {
        assert(b.last().0 == name);
    } else {
        let k = alias_pos(a, name);
        assert(b[k].0 == name);
        assert(alias_pos(b, name) >= k);
        if alias_pos(b, name) > k {
            assert(b[alias_pos(b, name)] == a[alias_pos(b, name)]);
        }
    }
}

/// A write leaves every other name as it was.
pub proof fn law_put_other_unchanged(a: Seq<(Seq<char>, SMacro)>, name: Seq<char>, m: SMacro, other: Seq<char>)
    requires
        other != name,
    ensures
        lookup_alias(put_alias(a, name, m), other) == lookup_alias(a, other),
{
    lemma_alias_pos(a, name);
    lemma_alias_pos(a, other);
    let b = put_alias(a, name, m);
    lemma_alias_pos(b, other);
    if alias_pos(b, other) >= 0 {
        assert(b[alias_pos(b, other)].0 == other);
        assert(a[alias_pos(b, other)].0 == other);
        assert(alias_pos(a, other) >= alias_pos(b, other));
        if alias_pos(a, other) > alias_pos(b, other) {
            assert(b[alias_pos(a, other)].0 == other);
        }
    } else {
        if alias_pos(a, other) >= 0 {
            assert(b[alias_pos(a, other)].0 == other);
        }
    }
}

/// Writing keeps every name at most once.
pub proof fn law_put_keeps_unique(a: Seq<(Seq<char>, SMacro)>, name: Seq<char>, m: SMacro)
    requires
        names_unique(a),
    ensures
        names_unique(put_alias(a, name, m)),
{
    lemma_alias_pos(a, name);
    let b = put_alias(a, name, m);
    assert forall|i: int, j: int| 0 <= i < j < b.len() implies #[trigger] b[i].0 != #[trigger] b[j].0 by {
        if alias_pos(a, name) >= 0 {
            assert(b[i].0 == a[i].0);
            assert(b[j].0 == a[j].0);
        } else if j == a.len() {
            assert(b[i] == a[i]);
        } else {
            assert(b[i] == a[i]);
            assert(b[j] == a[j]);
        }
    }
}

/// Finds the entry named `name`.
pub fn find_alias(a: &Vec<(String, MacroDef)>, name: &String) -> (r: Option<usize>)
    ensures
        match r {
            Some(i) => alias_pos(aliases_view(a@), name@) == i,
            None => alias_pos(aliases_view(a@), name@) == -1,
        },
{
    let ghost av = aliases_view(a@);
    let mut i = a.len();
    assert(av.take(i as int) =~= av);
    while i > 0
        invariant
            i <= a@.len(),
            av == aliases_view(a@),
            alias_pos(av, name@) == alias_pos(av.take(i as int), name@),
        decreases i,
    {
        let ghost t = av.take(i as int);
        proof {
            assert(t.drop_last() =~= av.take(i - 1));
            assert(t.last() == av[i - 1]);
        }
        if a[i - 1].0 == *name {
            return Some(i - 1);
        }
        i -= 1;
    }
    assert(av.take(0) =~= Seq::<(Seq<char>, SMacro)>::empty());
    None
}

/// Defines `name` as `m`.
pub fn insert_alias(a: &mut Vec<(String, MacroDef)>, name: String, m: MacroDef)
    ensures
        aliases_view(final(a)@) == put_alias(aliases_view(old(a)@), name@, m@),
{
    let ghost before = aliases_view(a@);
    proof {
        lemma_alias_pos(before, name@);
    }
    match find_alias(a, &name) {
        Some(i) => {
            a[i] = (name, m);
            assert(aliases_view(a@) =~= before.update(i as int, (name@, m@)));
        },
        None => {
            a.push((name, m));
            assert(aliases_view(a@) =~= before.push((name@, m@)));
        },
    }
}

} // verus!
