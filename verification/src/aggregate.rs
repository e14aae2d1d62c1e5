//! The result aggregator: merges the offsets collected by one or more
//! workers into a single strictly ascending, duplicate-free list, and, when
//! only the first occurrence is wanted, keeps just the smallest offset — the
//! one well-defined notion of "first" once workers run concurrently.

use vstd::prelude::*;

use crate::scan::{contains_offset, strictly_increasing};

verus! {

/// Place `v` into the ascending duplicate-free list `acc`, keeping it
/// ascending and duplicate-free; a second arrival of the same offset (two
/// workers whose read ranges overlap can both discover it) changes nothing.
fn insert_sorted_unique(acc: &mut Vec<usize>, v: usize)
    requires
        strictly_increasing(old(acc)@),
    ensures
        strictly_increasing(final(acc)@),
        forall|o: int|
            #[trigger] contains_offset(final(acc)@, o) <==> (contains_offset(old(acc)@, o) || o
                == v as int),
{
    let len = acc.len();
    let mut k: usize = 0;
    while k < len && acc[k] < v
        invariant
            len == acc@.len(),
            k <= len,
            acc@ == old(acc)@,
            forall|q: int| 0 <= q < k ==> (#[trigger] acc@[q]) < v,
        decreases len - k,
    {
        k += 1;
    }
    if k < len && acc[k] == v {
        proof {
            assert(contains_offset(acc@, v as int));
        }
        return ;
    }
    let ghost before = acc@;
    acc.insert(k, v);
    proof {
        assert(acc@ == before.insert(k as int, v));
        assert(forall|q: int| 0 <= q < k ==> acc@[q] == before[q]);
        assert(acc@[k as int] == v);
        assert(forall|q: int| k < q < acc@.len() ==> acc@[q] == before[q - 1]);
        assert forall|a: int, b: int| 0 <= a < b < acc@.len() implies acc@[a] < acc@[b] by {
            if a < k && b > k {
                assert(before[a] < v || before[a] == acc@[a]);
            }
        }
        assert forall|o: int| contains_offset(acc@, o) implies (contains_offset(before, o) || o
            == v as int) by {
            let q = choose|q: int| 0 <= q < acc@.len() && acc@[q] == o;
            if q < k {
                assert(before[q] == o);
            } else if q > k {
                assert(before[q - 1] == o);
            }
        }
        assert forall|o: int| contains_offset(before, o) || o == v as int implies contains_offset(
            acc@,
            o,
        ) by {
            if o == v as int {
                assert(acc@[k as int] == o);
            } else {
                let q = choose|q: int| 0 <= q < before.len() && before[q] == o;
                if q < k {
                    assert(acc@[q] == o);
                } else {
                    assert(acc@[q + 1] == o);
                }
            }
        }
    }
}

/// Merge the collected offsets: drop duplicates, sort ascending, and, when
/// `stop_at_first` is set, keep only the smallest offset. The result holds
/// exactly the distinct offsets of the input (or exactly its minimum).
pub fn aggregate_offsets(found: Vec<usize>, stop_at_first: bool) -> (r: Vec<usize>)
    ensures
        strictly_increasing(r@),
        forall|o: int| #[trigger] contains_offset(r@, o) ==> contains_offset(found@, o),
        !stop_at_first ==> forall|o: int|
            #[trigger] contains_offset(found@, o) ==> contains_offset(r@, o),
        stop_at_first ==> r@.len() <= 1,
        stop_at_first ==> (r@.len() == 1 <==> found@.len() > 0),
        stop_at_first ==> forall|o: int|
            #[trigger] contains_offset(found@, o) ==> r@.len() == 1 && r@[0] <= o,
{
    let mut acc: Vec<usize> = Vec::new();
    let len = found.len();
    let mut k: usize = 0;
    while k < len
        invariant
            len == found@.len(),
            k <= len,
            strictly_increasing(acc@),
            forall|o: int|
                #[trigger] contains_offset(acc@, o) <==> contains_offset(
                    found@.take(k as int),
                    o,
                ),
        decreases len - k,
    {
        let ghost acc_before = acc@;
        insert_sorted_unique(&mut acc, found[k]);
        proof {
            let ghost pref = found@.take(k + 1);
            let ghost prev = found@.take(k as int);
            assert(pref == prev.push(found@[k as int]));
            assert forall|o: int| contains_offset(pref, o) implies contains_offset(acc@, o) by {
                let q = choose|q: int| 0 <= q < pref.len() && pref[q] == o;
                if q < k {
                    assert(prev[q] == o);
                    assert(contains_offset(prev, o));
                }
            }
            assert forall|o: int| contains_offset(acc@, o) implies contains_offset(pref, o) by {
                if o == found@[k as int] {
                    assert(pref[k as int] == o);
                } else {
                    let q = choose|q: int| 0 <= q < prev.len() && prev[q] == o;
                    assert(pref[q] == o);
                }
            }
        }
        k += 1;
    }
    proof {
        assert(found@.take(len as int) == found@);
    }
    if stop_at_first && acc.len() > 1 {
        let ghost full = acc@;
        acc.truncate(1);
        proof {
            assert(acc@ == full.subrange(0, 1));
            assert(acc@[0] == full[0]);
            assert(contains_offset(acc@, full[0] as int));
            assert(contains_offset(full, full[0] as int));
            // Every collected offset sits at or after the head of the full
            // ascending list, and only that head survives.
            assert forall|o: int| contains_offset(found@, o) implies acc@.len() == 1 && acc@[0]
                <= o by {
                assert(contains_offset(full, o));
                let q = choose|q: int| 0 <= q < full.len() && full[q] == o;
                if q > 0 {
                    assert(full[0] < full[q]);
                }
            }
            assert forall|o: int| contains_offset(acc@, o) implies contains_offset(found@, o) by {
                assert(o == full[0] as int);
            }
        }
    } else {
        proof {
            if stop_at_first {
                if found@.len() >= 1 {
                    assert(contains_offset(found@, found@[0] as int));
                }
                if acc@.len() >= 1 {
                    assert(contains_offset(acc@, acc@[0] as int));
                }
                assert forall|o: int| contains_offset(found@, o) implies acc@.len() == 1 && acc@[0]
                    <= o by {
                    assert(contains_offset(acc@, o));
                    let q = choose|q: int| 0 <= q < acc@.len() && acc@[q] == o;
                }
            }
        }
    }
    acc
}

} // verus!
