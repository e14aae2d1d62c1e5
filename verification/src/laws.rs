//! Laws of the scanner, proved from the contracts alone: the scan description
//! admits exactly one output, so partitioning and repetition cannot change a
//! result; and the boundary behaviour of patterns that exactly fill, or
//! overrun, the buffer.

use vstd::prelude::*;

use crate::scan::{
    contains_offset, found_in_window, is_match, is_scan_result, sig_wf, strictly_increasing,
};

verus! {

/// Two strictly ascending offset lists with the same members are the same
/// list.
pub proof fn lemma_ascending_same_members_equal(a: Seq<usize>, b: Seq<usize>)
    requires
        strictly_increasing(a),
        strictly_increasing(b),
        forall|o: int|
            #![trigger contains_offset(a, o)]
            #![trigger contains_offset(b, o)]
            contains_offset(a, o) <==> contains_offset(b, o),
    ensures
        a == b,
    decreases a.len(),
{
    if a.len() == 0 {
        if b.len() > 0 {
            assert(contains_offset(b, b[0] as int));
            assert(contains_offset(a, b[0] as int));
        }
        assert(a =~= b);
    } else {
        assert(contains_offset(a, a[0] as int));
        assert(contains_offset(b, a[0] as int));
        assert(b.len() > 0);
        assert(contains_offset(b, b[0] as int));
        assert(contains_offset(a, b[0] as int));
        // Each head is a member of the other list, which its own head bounds
        // from below: the heads are equal.
        let qa = choose|q: int| 0 <= q < b.len() && b[q] == a[0];
        let qb = choose|q: int| 0 <= q < a.len() && a[q] == b[0];
        if qa > 0 {
            assert(b[0] < b[qa]);
        }
        if qb > 0 {
            assert(a[0] < a[qb]);
        }
        assert(a[0] == b[0]);
        let ta = a.drop_first();
        let tb = b.drop_first();
        assert forall|x: int, y: int| 0 <= x < y < ta.len() implies ta[x] < ta[y] by {
            assert(ta[x] == a[x + 1] && ta[y] == a[y + 1]);
        }
        assert forall|x: int, y: int| 0 <= x < y < tb.len() implies tb[x] < tb[y] by {
            assert(tb[x] == b[x + 1] && tb[y] == b[y + 1]);
        }
        // A tail member is a member above the head, and conversely.
        assert forall|o: int| #[trigger] contains_offset(ta, o) implies contains_offset(tb, o) by {
            let x = choose|x: int| 0 <= x < ta.len() && ta[x] == o;
            assert(a[x + 1] == o);
            assert(contains_offset(a, o));
            assert(a[0] < a[x + 1]);
            let y = choose|y: int| 0 <= y < b.len() && b[y] == o;
            assert(y > 0);
            assert(tb[y - 1] == o);
        }
        assert forall|o: int| #[trigger] contains_offset(tb, o) implies contains_offset(ta, o) by {
            let x = choose|x: int| 0 <= x < tb.len() && tb[x] == o;
            assert(b[x + 1] == o);
            assert(contains_offset(b, o));
            assert(b[0] < b[x + 1]);
            let y = choose|y: int| 0 <= y < a.len() && a[y] == o;
            assert(y > 0);
            assert(ta[y - 1] == o);
        }
        lemma_ascending_same_members_equal(ta, tb);
        assert forall|x: int| 0 <= x < a.len() implies a[x] == b[x] by {
            if x > 0 {
                assert(a[x] == ta[x - 1] && b[x] == tb[x - 1]);
            }
        }
        assert(a =~= b);
    }
}

/// The scan description admits exactly one output for given pattern, buffer
/// and mode. Hence parallelism cannot change correctness — the sequential
/// scan and the partitioned scan, with any worker count, return the same
/// offset list — and repeating either scan on the same inputs returns the
/// same ordered result again.
pub proof fn lemma_scan_result_unique(
    data: Seq<u8>,
    sig: Seq<u8>,
    mask: Seq<bool>,
    trim: int,
    stop_at_first: bool,
    r1: Seq<usize>,
    r2: Seq<usize>,
)
    requires
        is_scan_result(data, sig, mask, trim, stop_at_first, r1),
        is_scan_result(data, sig, mask, trim, stop_at_first, r2),
    ensures
        r1 == r2,
{
    let hi = data.len() as int;
    if stop_at_first {
        if r1.len() == 1 {
            assert(found_in_window(data, sig, mask, trim, 0, hi, r1[0] as int));
            assert(r2.len() == 1 && r2[0] <= r1[0]);
            assert(found_in_window(data, sig, mask, trim, 0, hi, r2[0] as int));
            assert(r1[0] <= r2[0]);
            assert(r1 =~= r2);
        } else {
            assert(r1.len() == 0);
            if r2.len() == 1 {
                assert(found_in_window(data, sig, mask, trim, 0, hi, r2[0] as int));
                assert(r1.len() == 1);
            }
            assert(r1 =~= r2);
        }
    } else {
        assert forall|o: int| #[trigger] contains_offset(r1, o) implies contains_offset(
            r2,
            o,
        ) by {
            let j = choose|j: int| 0 <= j < r1.len() && r1[j] == o;
            assert(found_in_window(data, sig, mask, trim, 0, hi, r1[j] as int));
        }
        assert forall|o: int| #[trigger] contains_offset(r2, o) implies contains_offset(
            r1,
            o,
        ) by {
            let j = choose|j: int| 0 <= j < r2.len() && r2[j] == o;
            assert(found_in_window(data, sig, mask, trim, 0, hi, r2[j] as int));
        }
        lemma_ascending_same_members_equal(r1, r2);
    }
}

/// A template that overruns the buffer — leading trim plus trimmed template
/// longer than the data — matches nowhere: any scan output for it is empty,
/// never an error.
pub proof fn lemma_pattern_longer_than_buffer(
    data: Seq<u8>,
    sig: Seq<u8>,
    mask: Seq<bool>,
    trim: int,
    stop_at_first: bool,
    r: Seq<usize>,
)
    requires
        trim >= 0,
        trim + sig.len() > data.len(),
        is_scan_result(data, sig, mask, trim, stop_at_first, r),
    ensures
        r == Seq::<usize>::empty(),
{
    assert(forall|o: int| !found_in_window(data, sig, mask, trim, 0, data.len() as int, o));
    if r.len() > 0 {
        assert(found_in_window(data, sig, mask, trim, 0, data.len() as int, r[0] as int));
    }
    assert(r =~= Seq::<usize>::empty());
}

/// A pattern that exactly fills the buffer — leading trim plus trimmed
/// template as long as the data — admits offset zero as its only candidate:
/// the scan returns `[0]` when every concrete byte lines up with the buffer
/// byte under it, and the empty list otherwise.
pub proof fn lemma_pattern_fills_buffer(
    data: Seq<u8>,
    sig: Seq<u8>,
    mask: Seq<bool>,
    trim: int,
    stop_at_first: bool,
    r: Seq<usize>,
)
    requires
        sig_wf(sig, mask),
        trim >= 0,
        trim + sig.len() == data.len(),
        is_scan_result(data, sig, mask, trim, stop_at_first, r),
    ensures
        (forall|k: int| 0 <= k < sig.len() && mask[k] ==> data[trim + k] == sig[k]) ==> r == seq![
            0usize,
        ],
        !(forall|k: int| 0 <= k < sig.len() && mask[k] ==> data[trim + k] == sig[k]) ==> r
            == Seq::<usize>::empty(),
{
    let hi = data.len() as int;
    assert forall|o: int|
        #[trigger] found_in_window(data, sig, mask, trim, 0, hi, o) implies o == 0 by {}
    if forall|k: int| 0 <= k < sig.len() && mask[k] ==> data[trim + k] == sig[k] {
        assert(is_match(data, sig, mask, trim, 0));
        assert(found_in_window(data, sig, mask, trim, 0, hi, 0));
        if stop_at_first {
            assert(r.len() == 1 && r[0] <= 0);
        } else {
            assert(contains_offset(r, 0));
            let j = choose|j: int| 0 <= j < r.len() && r[j] == 0;
            assert forall|x: int| 0 <= x < r.len() implies r[x] == 0usize by {
                assert(found_in_window(data, sig, mask, trim, 0, hi, r[x] as int));
            }
            if r.len() > 1 {
                assert(r[0] < r[1]);
            }
        }
        assert(r =~= seq![0usize]);
    } else {
        assert(!is_match(data, sig, mask, trim, 0));
        assert forall|o: int| !(#[trigger] found_in_window(data, sig, mask, trim, 0, hi, o)) by {}
        if r.len() > 0 {
            assert(found_in_window(data, sig, mask, trim, 0, hi, r[0] as int));
        }
        assert(r =~= Seq::<usize>::empty());
    }
}

} // verus!
