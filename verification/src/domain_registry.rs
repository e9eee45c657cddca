//! Which configured domains are new to the multiplexer: a domain whose
//! name is already registered is skipped, and so is a later entry of a
//! name that an earlier entry registers.
use vstd::prelude::*;
use crate::text::{str_eq, views};

verus! {

/// Entry `i` of `names` is registered: no domain of its name is known
/// and no earlier entry has its name.
pub open spec fn registers(names: Seq<Seq<char>>, known: Seq<Seq<char>>, i: int) -> bool {
    !known.contains(names[i]) && forall|j: int| 0 <= j < i ==> #[trigger] names[j] != names[i]
}

/// Whether `name` is one of `list`.
fn holds_name(list: &Vec<String>, name: &str) -> (r: bool)
    ensures
        r == views(list@).contains(name@),
{
    let mut i: usize = 0;
    while i < list.len()
        invariant
            i <= list.len(),
            forall|k: int| 0 <= k < i ==> views(list@)[k] != name@,
        decreases list.len() - i,
    {
        assert(views(list@)[i as int] == list@[i as int]@);
        if str_eq(list[i].as_str(), name) {
            return true;
        }
        i = i + 1;
    }
    false
}

/// The positions, in order, of the configured domains to register, given
/// the names the multiplexer already knows: each name that is not known,
/// at its first entry.
pub fn domains_to_register(names: &Vec<String>, known: &Vec<String>) -> (r: Vec<usize>)
    ensures
        forall|k: int| 0 <= k < r@.len() ==> #[trigger] r@[k] < names@.len(),
        forall|k: int, l: int| 0 <= k < l < r@.len() ==> #[trigger] r@[k] < #[trigger] r@[l],
        forall|i: int|
            0 <= i < names@.len() ==> (r@.contains(i as usize) <==> #[trigger] registers(
                views(names@),
                views(known@),
                i,
            )),
{
    let mut out: Vec<usize> = Vec::new();
    let mut i: usize = 0;
    while i < names.len()
        invariant
            i <= names.len(),
            forall|k: int| 0 <= k < out@.len() ==> #[trigger] out@[k] < i,
            forall|k: int, l: int| 0 <= k < l < out@.len() ==> #[trigger] out@[k] < #[trigger] out@[l],
            forall|q: int|
                0 <= q < i ==> (out@.contains(q as usize) <==> #[trigger] registers(
                    views(names@),
                    views(known@),
                    q,
                )),
        decreases names.len() - i,
    {
        let name = names[i].as_str();
        assert(views(names@)[i as int] == names@[i as int]@);
        let is_known = holds_name(known, name);
        let mut earlier = false;
        let mut j: usize = 0;
        while j < i
            invariant
                j <= i < names.len(),
                name@ == views(names@)[i as int],
                earlier == exists|p: int| 0 <= p < j && views(names@)[p] == views(names@)[i as int],
            decreases i - j,
        {
            assert(views(names@)[j as int] == names@[j as int]@);
            if str_eq(names[j].as_str(), name) {
                earlier = true;
            }
            proof {
                if views(names@)[j as int] == views(names@)[i as int] {
                    assert(0 <= j < j + 1 && views(names@)[j as int] == views(names@)[i as int]);
                }
            }
            j = j + 1;
        }
        assert(views(names@)[i as int] == names@[i as int]@);
        let ghost before = out@;
        if !is_known && !earlier {
            out.push(i);
        }
        proof {
            assert forall|q: int| 0 <= q < i + 1 implies (out@.contains(q as usize) <==> #[trigger] registers(
                views(names@),
                views(known@),
                q,
            )) by {
                if q < i {
                    if out@.contains(q as usize) {
                        let k = choose|k: int| 0 <= k < out@.len() && out@[k] == q as usize;
                        if k < before.len() {
                            assert(before[k] == out@[k]);
                        }
                        assert(before.contains(q as usize));
                    }
                    if before.contains(q as usize) {
                        let k = choose|k: int| 0 <= k < before.len() && before[k] == q as usize;
                        assert(out@[k] == before[k]);
                    }
                } else {
                    if out@.contains(q as usize) {
                        let k = choose|k: int| 0 <= k < out@.len() && out@[k] == q as usize;
                        if k < before.len() {
                            assert(before[k] < i);
                        }
                    }
                    if !is_known && !earlier {
                        assert(out@[before.len() as int] == i);
                    }
                }
            }
        }
        i = i + 1;
    }
    out
}

} // verus!
