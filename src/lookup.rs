//! Lookup in tables held as vectors of (name, value) pairs.
use vstd::prelude::*;

verus! {

/// The position of `name` in a table, if present.
pub fn position<V>(table: &Vec<(String, V)>, name: &str) -> (r: Option<usize>)
    ensures
        match r {
            Some(i) => i < table@.len() && table@[i as int].0@ == name@,
            None => forall|i: int| 0 <= i < table@.len() ==> (#[trigger] table@[i]).0@ != name@,
        },
{
    let target = name.to_owned();
    let mut i: usize = 0;
    while i < table.len()
        invariant
            i <= table@.len(),
            target@ == name@,
            forall|j: int| 0 <= j < i ==> (#[trigger] table@[j]).0@ != name@,
        decreases table@.len() - i,
    {
        if table[i].0 == target {
            return Some(i);
        }
        i = i + 1;
    }
    None
}

/// A copy of a table of string pairs.
pub fn copy_table(table: &Vec<(String, String)>) -> (r: Vec<(String, String)>)
    ensures
        r@ == table@,
{
    let mut r: Vec<(String, String)> = Vec::new();
    let mut i: usize = 0;
    while i < table.len()
        invariant
            i <= table@.len(),
            r@ =~= table@.subrange(0, i as int),
        decreases table@.len() - i,
    {
        r.push((table[i].0.clone(), table[i].1.clone()));
        i = i + 1;
    }
    assert(table@.subrange(0, table@.len() as int) =~= table@);
    r
}

} // verus!
