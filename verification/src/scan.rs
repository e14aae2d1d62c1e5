//! The masked substring search: what it means for a compiled signature to
//! match a buffer at an offset, and the single-pass scanner over a window of
//! candidate offsets.

use vstd::prelude::*;

use crate::aggregate::aggregate_offsets;
use crate::errors::{CompileError, ScanError};
use crate::partition::{lemma_partitions_cover, partition_wf, plan_partitions};
use crate::pattern::{compile_outcome, compile_pattern, CompileOutcome, Pattern};

verus! {

/// A compiled template is well formed when the byte template and the wildcard
/// mask run in parallel, the template is not empty, and both ends are anchored
/// by a concrete (non-wildcard) position, as trimming guarantees.
pub open spec fn sig_wf(sig: Seq<u8>, mask: Seq<bool>) -> bool {
    &&& sig.len() == mask.len()
    &&& sig.len() > 0
    &&& mask[0]
    &&& mask[sig.len() - 1]
}

/// The trimmed template placed at buffer position `i` matches: every concrete
/// position agrees with the buffer byte under it; wildcard positions are free.
pub open spec fn matches_at(data: Seq<u8>, sig: Seq<u8>, mask: Seq<bool>, i: int) -> bool {
    &&& 0 <= i
    &&& i + sig.len() <= data.len()
    &&& forall|k: int| 0 <= k < sig.len() && mask[k] ==> data[i + k] == sig[k]
}

/// Offset `o`, in the untrimmed pattern's coordinates, is an occurrence: the
/// trimmed template matches at `o + trim`, where `trim` counts the wildcard
/// tokens stripped from the front of the pattern.
pub open spec fn is_match(data: Seq<u8>, sig: Seq<u8>, mask: Seq<bool>, trim: int, o: int) -> bool {
    &&& 0 <= o
    &&& matches_at(data, sig, mask, o + trim)
}

/// An occurrence whose trimmed template lies wholly inside the byte window
/// `[lo, hi)`; a worker assigned that window is responsible for it.
pub open spec fn found_in_window(
    data: Seq<u8>,
    sig: Seq<u8>,
    mask: Seq<bool>,
    trim: int,
    lo: int,
    hi: int,
    o: int,
) -> bool {
    &&& is_match(data, sig, mask, trim, o)
    &&& lo <= o + trim
    &&& o + trim + sig.len() <= hi
}

/// The offsets of `s` are strictly ascending, hence duplicate-free.
pub open spec fn strictly_increasing(s: Seq<usize>) -> bool {
    forall|a: int, b: int| 0 <= a < b < s.len() ==> s[a] < s[b]
}

/// `s` holds the offset `o` somewhere.
pub open spec fn contains_offset(s: Seq<usize>, o: int) -> bool {
    exists|j: int| 0 <= j < s.len() && s[j] == o
}

/// What a scan of the window `[lo, hi)` must return. Without `stop_at_first`
/// the output is the strictly ascending list of exactly the occurrences whose
/// template lies in the window; with it, the output is empty when there is no
/// such occurrence and otherwise holds exactly the smallest one.
pub open spec fn window_output(
    data: Seq<u8>,
    sig: Seq<u8>,
    mask: Seq<bool>,
    trim: int,
    lo: int,
    hi: int,
    stop_at_first: bool,
    r: Seq<usize>,
) -> bool {
    &&& strictly_increasing(r)
    &&& forall|j: int| 0 <= j < r.len() ==> found_in_window(data, sig, mask, trim, lo, hi, r[j] as int)
    &&& if stop_at_first {
        &&& r.len() <= 1
        &&& ((exists|o: int| found_in_window(data, sig, mask, trim, lo, hi, o)) <==> r.len() == 1)
        &&& forall|o: int|
            #[trigger] found_in_window(data, sig, mask, trim, lo, hi, o) ==> r.len() == 1 && r[0]
                <= o
    } else {
        forall|o: int|
            #[trigger] found_in_window(data, sig, mask, trim, lo, hi, o) ==> contains_offset(r, o)
    }
}

/// What a whole-buffer scan must return: the window is the entire buffer.
pub open spec fn is_scan_result(
    data: Seq<u8>,
    sig: Seq<u8>,
    mask: Seq<bool>,
    trim: int,
    stop_at_first: bool,
    r: Seq<usize>,
) -> bool {
    window_output(data, sig, mask, trim, 0, data.len() as int, stop_at_first, r)
}

/// The contract the scan entry points share. A scan call returns `Ok` exactly
/// when the pattern text compiles; each compilation failure maps to its own
/// error, the malformed token carried along; and a successful scan returns
/// exactly the occurrence list that `is_scan_result` describes for the
/// compiled template.
pub open spec fn scan_call_ok(
    text: Seq<char>,
    data: Seq<u8>,
    stop_at_first: bool,
    res: Result<Vec<usize>, ScanError>,
) -> bool {
    match res {
        Ok(v) => {
            &&& compile_outcome(text) matches CompileOutcome::Compiled { bytes, mask, leading_trim }
            &&& is_scan_result(data, bytes, mask, leading_trim as int, stop_at_first, v@)
        },
        Err(e) => match e {
            ScanError::Compile { error } => match error {
                CompileError::EmptyPattern => compile_outcome(text) is Empty,
                CompileError::InvalidToken { token } => {
                    &&& compile_outcome(text) matches CompileOutcome::Invalid { token: t }
                    &&& token@ == t
                },
                CompileError::AllWildcards => compile_outcome(text) is AllWildcards,
            },
            _ => false,
        },
    }
}

/// Full masked comparison of the trimmed template against the buffer at
/// position `i`.
fn matches_here(data: &[u8], sig: &Vec<u8>, mask: &Vec<bool>, i: usize) -> (b: bool)
    requires
        sig@.len() == mask@.len(),
        i + sig@.len() <= data@.len(),
    ensures
        b == matches_at(data@, sig@, mask@, i as int),
{
    let m = sig.len();
    let n = data.len();
    let mut k: usize = 0;
    while k < m
        invariant
            m == sig@.len(),
            sig@.len() == mask@.len(),
            n == data@.len(),
            i + m <= n,
            k <= m,
            forall|q: int| 0 <= q < k && mask@[q] ==> data@[i + q] == sig@[q],
        decreases m - k,
    {
        if mask[k] && data[i + k] != sig[k] {
            return false;
        }
        k += 1;
    }
    true
}

/// Scan the byte window `[lo, hi)` of the buffer for the compiled pattern,
/// reporting occurrences in the untrimmed pattern's coordinates, ascending.
/// A candidate is rejected cheaply when its first byte differs from the
/// pattern's anchor byte; only survivors get the full masked comparison.
/// With `stop_at_first`, scanning ends at the first (smallest) occurrence.
pub fn scan_window(
    data: &[u8],
    pattern: &Pattern,
    lo: usize,
    hi: usize,
    stop_at_first: bool,
) -> (r: Vec<usize>)
    requires
        pattern.wf(),
        hi <= data@.len(),
    ensures
        window_output(
            data@,
            pattern.bytes@,
            pattern.mask@,
            pattern.leading_trim as int,
            lo as int,
            hi as int,
            stop_at_first,
            r@,
        ),
{
    let ghost sig = pattern.bytes@;
    let ghost mask = pattern.mask@;
    let ghost trim = pattern.leading_trim as int;
    let m = pattern.bytes.len();
    let mut r: Vec<usize> = Vec::new();
    let start = if lo < pattern.leading_trim {
        pattern.leading_trim
    } else {
        lo
    };
    if m > hi || start > hi - m {
        // The window has no room for any candidate placement.
        assert(forall|o: int| !found_in_window(data@, sig, mask, trim, lo as int, hi as int, o));
        return r;
    }
    let last = hi - m;
    let anchor = pattern.bytes[0];
    let mut i = start;
    while i <= last
        invariant_except_break
            pattern.wf(),
            sig == pattern.bytes@,
            mask == pattern.mask@,
            trim == pattern.leading_trim as int,
            m == sig.len(),
            hi <= data@.len(),
            last == hi - m,
            start <= i <= last + 1,
            start == if lo < pattern.leading_trim { pattern.leading_trim as int } else { lo as int },
            anchor == sig[0],
            strictly_increasing(r@),
            forall|j: int| 0 <= j < r@.len() ==> r@[j] + trim < i,
            forall|j: int|
                0 <= j < r@.len() ==> found_in_window(
                    data@,
                    sig,
                    mask,
                    trim,
                    lo as int,
                    hi as int,
                    r@[j] as int,
                ),
            forall|o: int|
                #[trigger] found_in_window(data@, sig, mask, trim, lo as int, hi as int, o)
                    && o + trim < i ==> contains_offset(r@, o),
            stop_at_first ==> r@.len() == 0,
        ensures
            window_output(
                data@,
                sig,
                mask,
                trim,
                lo as int,
                hi as int,
                stop_at_first,
                r@,
            ),
        decreases last + 1 - i,
    {
        if data[i] == anchor && matches_here(data, &pattern.bytes, &pattern.mask, i) {
            let o = i - pattern.leading_trim;
            let ghost r_before = r@;
            proof {
                assert(found_in_window(data@, sig, mask, trim, lo as int, hi as int, o as int));
            }
            r.push(o);
            proof {
                assert(r@[r@.len() - 1] == o);
                assert(contains_offset(r@, o as int));
                assert forall|o2: int| contains_offset(r_before, o2) implies contains_offset(
                    r@,
                    o2,
                ) by {
                    let j = choose|j: int| 0 <= j < r_before.len() && r_before[j] == o2;
                    assert(r@[j] == o2);
                }
            }
            if stop_at_first {
                proof {
                    assert(forall|o2: int|
                        found_in_window(data@, sig, mask, trim, lo as int, hi as int, o2)
                            ==> o as int <= o2);
                }
                break;
            }
        } else {
            // The placement at `i` is no occurrence: either the anchor byte
            // differs (the mask holds position 0 concrete) or the full
            // comparison failed.
            assert(!matches_at(data@, sig, mask, i as int));
        }
        i += 1;
    }
    r
}

/// Scan the whole buffer for the signature in one left-to-right pass.
/// Occurrences come back ascending and duplicate-free, corrected into the
/// untrimmed pattern's coordinates; with `return_on_first` only the first
/// (smallest) occurrence is returned. A pattern that cannot fit the buffer
/// yields an empty list, not an error.
pub fn aob_scan_single_threaded(
    pattern: &str,
    data: &[u8],
    return_on_first: bool,
) -> (res: Result<Vec<usize>, ScanError>)
    ensures
        scan_call_ok(pattern@, data@, return_on_first, res),
{
    let compiled = match compile_pattern(pattern) {
        Ok(p) => p,
        Err(error) => {
            return Err(ScanError::Compile { error });
        },
    };
    let r = scan_window(data, &compiled, 0, data.len(), return_on_first);
    Ok(r)
}

/// Scan the buffer as `thread_count` workers would: plan that many
/// overlapping partitions, scan each partition's read range, and merge the
/// findings into one ascending, duplicate-free list — exactly the sequential
/// scan's answer, whatever the partition count. Fewer than two workers is a
/// configuration error; the sequential entry point serves that case.
pub fn aob_scan_multi_threaded(
    pattern: &str,
    data: &[u8],
    return_on_first: bool,
    thread_count: usize,
) -> (res: Result<Vec<usize>, ScanError>)
    ensures
        thread_count < 2 ==> res matches Err(ScanError::Configuration),
        thread_count >= 2 ==> scan_call_ok(pattern@, data@, return_on_first, res),
{
    if thread_count < 2 {
        return Err(ScanError::Configuration);
    }
    let compiled = match compile_pattern(pattern) {
        Ok(p) => p,
        Err(error) => {
            return Err(ScanError::Compile { error });
        },
    };
    let ghost sig = compiled.bytes@;
    let ghost mask = compiled.mask@;
    let ghost trim = compiled.leading_trim as int;
    let len = data.len();
    let parts = plan_partitions(len, compiled.bytes.len(), thread_count);
    let mut collected: Vec<usize> = Vec::new();
    let mut q: usize = 0;
    while q < thread_count
        invariant
            compiled.wf(),
            sig == compiled.bytes@,
            mask == compiled.mask@,
            trim == compiled.leading_trim as int,
            len == data@.len(),
            parts@.len() == thread_count,
            q <= thread_count,
            forall|k: int|
                0 <= k < thread_count ==> partition_wf(
                    #[trigger] parts@[k],
                    len as int,
                    sig.len() as int,
                ),
            forall|o: int|
                #[trigger] contains_offset(collected@, o) <==> exists|j: int|
                    0 <= j < q && found_in_window(
                        data@,
                        sig,
                        mask,
                        trim,
                        #[trigger] parts@[j].read_start as int,
                        parts@[j].read_end as int,
                        o,
                    ),
        decreases thread_count - q,
    {
        let part = parts[q];
        let mut local = scan_window(data, &compiled, part.read_start, part.read_end, false);
        let ghost local_view = local@;
        let ghost coll_before = collected@;
        collected.append(&mut local);
        proof {
            let rs = part.read_start as int;
            let re = part.read_end as int;
            assert(collected@ == coll_before + local_view);
            assert forall|o: int| #[trigger] contains_offset(collected@, o) implies (
            contains_offset(coll_before, o) || found_in_window(
                data@,
                sig,
                mask,
                trim,
                rs,
                re,
                o,
            )) by {
                let x = choose|x: int| 0 <= x < collected@.len() && collected@[x] == o;
                if x < coll_before.len() {
                    assert(coll_before[x] == o);
                } else {
                    assert(local_view[x - coll_before.len()] == o);
                }
            }
            assert forall|o: int|
                contains_offset(coll_before, o) || found_in_window(
                    data@,
                    sig,
                    mask,
                    trim,
                    rs,
                    re,
                    o,
                ) implies #[trigger] contains_offset(collected@, o) by {
                if contains_offset(coll_before, o) {
                    let x = choose|x: int| 0 <= x < coll_before.len() && coll_before[x] == o;
                    assert(collected@[x] == o);
                } else {
                    assert(contains_offset(local_view, o));
                    let x = choose|x: int| 0 <= x < local_view.len() && local_view[x] == o;
                    assert(collected@[coll_before.len() + x] == o);
                }
            }
            assert forall|o: int| #[trigger] contains_offset(collected@, o) implies exists|j: int|
                0 <= j < q + 1 && found_in_window(
                    data@,
                    sig,
                    mask,
                    trim,
                    #[trigger] parts@[j].read_start as int,
                    parts@[j].read_end as int,
                    o,
                ) by {
                if contains_offset(coll_before, o) {
                    let j = choose|j: int|
                        0 <= j < q && found_in_window(
                            data@,
                            sig,
                            mask,
                            trim,
                            #[trigger] parts@[j].read_start as int,
                            parts@[j].read_end as int,
                            o,
                        );
                    assert(0 <= j < q + 1);
                } else {
                    assert(found_in_window(data@, sig, mask, trim, rs, re, o));
                    assert(0 <= q < q + 1 && found_in_window(
                        data@,
                        sig,
                        mask,
                        trim,
                        parts@[q as int].read_start as int,
                        parts@[q as int].read_end as int,
                        o,
                    ));
                }
            }
        }
        q += 1;
    }
    proof {
        // Soundness: everything collected is an occurrence — each partition's
        // read range lies inside the buffer.
        assert forall|o: int| #[trigger] contains_offset(collected@, o) implies is_match(
            data@,
            sig,
            mask,
            trim,
            o,
        ) by {
            let j = choose|j: int|
                0 <= j < thread_count && found_in_window(
                    data@,
                    sig,
                    mask,
                    trim,
                    #[trigger] parts@[j].read_start as int,
                    parts@[j].read_end as int,
                    o,
                );
        }
        // Completeness: every occurrence begins inside some partition's
        // search range, and that partition's read range covers its whole
        // template, so some worker collected it.
        assert forall|o: int| is_match(data@, sig, mask, trim, o) implies #[trigger] contains_offset(
            collected@,
            o,
        ) by {
            let i = o + trim;
            assert(0 <= i && i + sig.len() <= len);
            lemma_partitions_cover(parts@, len as int, i);
            let j = choose|j: int|
                0 <= j < parts@.len() && (#[trigger] parts@[j].search_start) <= i
                    < parts@[j].search_end;
            assert(partition_wf(parts@[j], len as int, sig.len() as int));
            assert(found_in_window(
                data@,
                sig,
                mask,
                trim,
                parts@[j].read_start as int,
                parts@[j].read_end as int,
                o,
            ));
        }
    }
    let ghost collected_view = collected@;
    let result = aggregate_offsets(collected, return_on_first);
    proof {
        let hi = data@.len() as int;
        assert forall|j: int| 0 <= j < result@.len() implies found_in_window(
            data@,
            sig,
            mask,
            trim,
            0,
            hi,
            result@[j] as int,
        ) by {
            assert(contains_offset(result@, result@[j] as int));
        }
        if return_on_first {
            if result@.len() == 1 {
                assert(contains_offset(collected_view, collected_view[0] as int));
                assert(is_match(data@, sig, mask, trim, collected_view[0] as int));
                assert(found_in_window(data@, sig, mask, trim, 0, hi, collected_view[0] as int));
            }
            assert forall|o: int|
                #[trigger] found_in_window(data@, sig, mask, trim, 0, hi, o) implies result@.len()
                == 1 && result@[0] <= o by {
                assert(contains_offset(collected_view, o));
            }
        } else {
            assert forall|o: int|
                #[trigger] found_in_window(data@, sig, mask, trim, 0, hi, o) implies contains_offset(
                result@,
                o,
            ) by {
                assert(contains_offset(collected_view, o));
            }
        }
    }
    Ok(result)
}
} // verus!
