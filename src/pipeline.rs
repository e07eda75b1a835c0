//! What the parser reads back from the lines that the interpreter writes for
//! a stream of allocations and frees.
use vstd::prelude::*;

use crate::interpret::{
    allocated_since, interpreter_run, lemma_counters_bounded, lemma_live_are_unfreed, lemma_live_signatures,
    Interpreter, MemStats,
};
use crate::output::{line1, line2, NEWLINE, TAG_ALLOC, TAG_FREE, TAG_TRACE_ALLOC};
use crate::parser::{
    empty_view, interned_position, line_effect, lemma_line1_reads_back, lemma_line2_reads_back,
    parser_run, tag, DataView,
};
use crate::record::Record;
use crate::text::tokens;

verus! {

/// The lines, without their newlines, that handling an `Alloc` or a `Free`
/// in `before` writes.
pub open spec fn event_lines(before: &Interpreter, record: Record) -> Seq<Seq<u8>> {
    match record {
        Record::Alloc { ptr, size, parent_idx } => {
            let sig = (size as u64, parent_idx as u64);
            let idx = if before.signatures().contains(sig) {
                before.signatures().index_of(sig)
            } else {
                before.signatures().len() as int
            };
            (if before.signatures().contains(sig) {
                Seq::empty()
            } else {
                seq![line2(TAG_TRACE_ALLOC, size as nat, parent_idx as nat).drop_last()]
            }) + seq![line1(TAG_ALLOC, idx as nat).drop_last()]
        },
        Record::Free { ptr } => if before.live().contains_key(ptr as u64) {
            seq![line1(TAG_FREE, before.live()[ptr as u64] as nat).drop_last()]
        } else {
            Seq::empty()
        },
        _ => Seq::empty(),
    }
}

/// The lines written for the first `n` records.
pub open spec fn lines_upto(states: Seq<Interpreter>, records: Seq<Record>, n: int) -> Seq<Seq<u8>>
    decreases n,
{
    if n <= 0 {
        Seq::empty()
    } else {
        lines_upto(states, records, n - 1) + event_lines(&states[n - 1], records[n - 1])
    }
}

/// The size of the latest `Alloc` of `p` among the first `n` records.
pub open spec fn latest_size(records: Seq<Record>, n: int, p: u64) -> u64
    decreases n,
{
    if n <= 0 {
        0
    } else {
        match records[n - 1] {
            Record::Alloc { ptr, size, .. } => if ptr as u64 == p {
                size as u64
            } else {
                latest_size(records, n - 1, p)
            },
            _ => latest_size(records, n - 1, p),
        }
    }
}

/// The bytes of the allocations among the first `n` records that no later
/// `Free` released: a `Free` of a pointer releases its latest allocation,
/// where that one was not released already.
pub open spec fn unfreed_bytes(records: Seq<Record>, n: int) -> int
    decreases n,
{
    if n <= 0 {
        0
    } else {
        match records[n - 1] {
            Record::Alloc { size, .. } => unfreed_bytes(records, n - 1) + size,
            Record::Free { ptr } => if allocated_since(records, n - 1, ptr as u64) {
                unfreed_bytes(records, n - 1) - latest_size(records, n - 1, ptr as u64)
            } else {
                unfreed_bytes(records, n - 1)
            },
            _ => unfreed_bytes(records, n - 1),
        }
    }
}

/// The parser's signatures are the interpreter's `sigs`, by size, and each
/// refers to an allocation that is there.
pub open spec fn infos_in_step(d: DataView, sigs: Seq<(u64, u64)>) -> bool {
    &&& d.allocation_infos.len() == sigs.len()
    &&& forall|k: int|
        0 <= k < d.allocation_infos.len() ==> (#[trigger] d.allocation_infos[k]).size == sigs[k].0
            && d.allocation_infos[k].allocation_idx < d.allocations.len()
    &&& forall|t: u64|
        #[trigger] d.allocation_indices.contains_key(t) ==> d.allocation_indices[t] < d.allocations.len()
}

/// What the parser state `d` and the interpreter state `i` agree on after
/// the first `n` records.
pub open spec fn in_step(d: DataView, i: &Interpreter, records: Seq<Record>, n: int) -> bool {
    &&& infos_in_step(d, i.signatures())
    &&& d.total.allocations == i.counters().allocations
    &&& d.total.temporary + i.counters().leaked_allocations <= d.total.allocations
    &&& d.total.leaked == unfreed_bytes(records, n)
    &&& forall|p: u64|
        #[trigger] i.live().contains_key(p) ==> i.signatures()[i.live()[p] as int].0 == latest_size(
            records,
            n,
            p,
        )
}

/// Reading the line of a new signature appends it.
proof fn lemma_signature_line(d: DataView, l: u64, d2: DataView, l2: u64, size: u64, parent_idx: u64, sigs: Seq<(u64, u64)>)
    requires
        line_effect(d, l, line2(TAG_TRACE_ALLOC, size as nat, parent_idx as nat).drop_last(), d2, l2, Ok(())),
        infos_in_step(d, sigs),
    ensures
        infos_in_step(d2, sigs.push((size, parent_idx))),
        d2.total == d.total,
        l2 == l,
{
    lemma_line2_reads_back(TAG_TRACE_ALLOC, size, parent_idx);
    assert(tag(0x61)[0] != tag(0x73)[0] && tag(0x61)[0] != tag(0x74)[0] && tag(0x61)[0] != tag(0x69)[0]);
    let s2 = sigs.push((size, parent_idx));
    assert forall|j: int| 0 <= j < d2.allocation_infos.len() implies (#[trigger] d2.allocation_infos[j]).size
        == s2[j].0 && d2.allocation_infos[j].allocation_idx < d2.allocations.len() by {
        if j < d.allocation_infos.len() {
            assert(d2.allocation_infos[j] == d.allocation_infos[j]);
        }
    }
    assert forall|t: u64| #[trigger] d2.allocation_indices.contains_key(t) implies d2.allocation_indices[t]
        < d2.allocations.len() by {
        if d.allocation_indices.contains_key(t) {
            assert(d.allocation_indices[t] < d.allocations.len());
        }
    }
}

/// Reading the `+` line of signature `idx` adds one allocation of its size.
proof fn lemma_plus_line(d: DataView, l: u64, d2: DataView, l2: u64, idx: int, sigs: Seq<(u64, u64)>)
    requires
        line_effect(d, l, line1(TAG_ALLOC, idx as nat).drop_last(), d2, l2, Ok(())),
        infos_in_step(d, sigs),
        0 <= idx < sigs.len(),
        sigs.len() <= isize::MAX,
    ensures
        infos_in_step(d2, sigs),
        d2.total.allocations == d.total.allocations + 1,
        d2.total.temporary == d.total.temporary,
        d2.total.leaked == d.total.leaked + sigs[idx].0,
{
    lemma_line1_reads_back(TAG_ALLOC, idx as u64);
    assert(tag(0x2b)[0] != tag(0x73)[0] && tag(0x2b)[0] != tag(0x74)[0] && tag(0x2b)[0] != tag(0x69)[0]
        && tag(0x2b)[0] != tag(0x61)[0]);
    assert(d.allocation_infos[idx].size == sigs[idx].0);
    assert forall|j: int| 0 <= j < d2.allocation_infos.len() implies (#[trigger] d2.allocation_infos[j]).size
        == sigs[j].0 && d2.allocation_infos[j].allocation_idx < d2.allocations.len() by {
        assert(d2.allocation_infos[j] == d.allocation_infos[j]);
    }
}

/// Reading the `-` line of signature `idx` releases its size.
proof fn lemma_minus_line(d: DataView, l: u64, d2: DataView, l2: u64, idx: int, sigs: Seq<(u64, u64)>)
    requires
        line_effect(d, l, line1(TAG_FREE, idx as nat).drop_last(), d2, l2, Ok(())),
        infos_in_step(d, sigs),
        0 <= idx < sigs.len(),
        sigs.len() <= isize::MAX,
    ensures
        infos_in_step(d2, sigs),
        d2.total.allocations == d.total.allocations,
        d2.total.temporary <= d.total.temporary + 1,
        d2.total.leaked == d.total.leaked - sigs[idx].0,
{
    lemma_line1_reads_back(TAG_FREE, idx as u64);
    assert(tag(0x2d)[0] != tag(0x73)[0] && tag(0x2d)[0] != tag(0x74)[0] && tag(0x2d)[0] != tag(0x69)[0]
        && tag(0x2d)[0] != tag(0x61)[0] && tag(0x2d)[0] != tag(0x2b)[0]);
    assert(d.allocation_infos[idx].size == sigs[idx].0);
    assert forall|j: int| 0 <= j < d2.allocation_infos.len() implies (#[trigger] d2.allocation_infos[j]).size
        == sigs[j].0 && d2.allocation_infos[j].allocation_idx < d2.allocations.len() by {
        assert(d2.allocation_infos[j] == d.allocation_infos[j]);
    }
}

/// Reading the lines of an `Alloc` keeps the parser in step.
proof fn lemma_alloc_step(
    before: &Interpreter,
    after: &Interpreter,
    records: Seq<Record>,
    n: int,
    ps: Seq<(DataView, u64)>,
)
    requires
        0 < n <= records.len(),
        records[n - 1] is Alloc,
        crate::interpret::record_effect(before, records[n - 1], after, Ok(())),
        before.wf(),
        after.wf(),
        parser_run(ps, event_lines(before, records[n - 1])),
        in_step(ps[0].0, before, records, n - 1),
    ensures
        in_step(ps.last().0, after, records, n),
{
    lemma_live_signatures(before);
    lemma_live_signatures(after);
    lemma_counters_bounded(before);
    let rec = records[n - 1];
    let ls = event_lines(before, rec);
    let size = rec->Alloc_size as u64;
    let parent_idx = rec->Alloc_parent_idx as u64;
    let sig = (size, parent_idx);
    let p = rec->Alloc_ptr as u64;
    let known = before.signatures().contains(sig);
    let k: int = if known { 0 } else { 1 };
    if !known {
        assert(line_effect(ps[0].0, ps[0].1, ls[0], ps[1].0, ps[1].1, Ok(())));
        lemma_signature_line(ps[0].0, ps[0].1, ps[1].0, ps[1].1, size, parent_idx, before.signatures());
    } else {
        before.signatures().index_of_first(sig);
    }
    let idx = if known {
        before.signatures().index_of(sig)
    } else {
        before.signatures().len() as int
    };
    assert(ls[k] == line1(TAG_ALLOC, idx as nat).drop_last());
    assert(line_effect(ps[k].0, ps[k].1, ls[k], ps[k + 1].0, ps[k + 1].1, Ok(())));
    lemma_plus_line(ps[k].0, ps[k].1, ps[k + 1].0, ps[k + 1].1, idx, after.signatures());
    assert(ps.len() == k + 2);
    assert(after.signatures()[idx].0 == size);
    assert forall|q: u64| #[trigger] after.live().contains_key(q) implies after.signatures()[after.live()[q] as int].0
        == latest_size(records, n, q) by {
        if q != p {
            assert(before.live().contains_key(q));
        }
    }
}

/// Reading the lines of a `Free` keeps the parser in step.
proof fn lemma_free_step(
    before: &Interpreter,
    after: &Interpreter,
    records: Seq<Record>,
    n: int,
    ps: Seq<(DataView, u64)>,
)
    requires
        0 < n <= records.len(),
        records[n - 1] is Free,
        crate::interpret::record_effect(before, records[n - 1], after, Ok(())),
        before.wf(),
        forall|q: u64| #[trigger] before.live().contains_key(q) == allocated_since(records, n - 1, q),
        parser_run(ps, event_lines(before, records[n - 1])),
        in_step(ps[0].0, before, records, n - 1),
    ensures
        in_step(ps.last().0, after, records, n),
{
    lemma_live_signatures(before);
    lemma_counters_bounded(before);
    let rec = records[n - 1];
    let ls = event_lines(before, rec);
    let p = rec->Free_ptr as u64;
    assert(before.live().contains_key(p) == allocated_since(records, n - 1, p));
    if before.live().contains_key(p) {
        let idx = before.live()[p];
        assert(line_effect(ps[0].0, ps[0].1, ls[0], ps[1].0, ps[1].1, Ok(())));
        lemma_minus_line(ps[0].0, ps[0].1, ps[1].0, ps[1].1, idx as int, before.signatures());
    }
    assert forall|q: u64| #[trigger] after.live().contains_key(q) implies after.signatures()[after.live()[q] as int].0
        == latest_size(records, n, q) by {
        assert(before.live().contains_key(q));
    }
}

/// The lines written for the first `n` records begin those written for the
/// first `n2`.
proof fn lemma_prefix(istates: Seq<Interpreter>, records: Seq<Record>, n: int, n2: int)
    requires
        0 <= n <= n2,
    ensures
        lines_upto(istates, records, n).len() <= lines_upto(istates, records, n2).len(),
        forall|j: int|
            0 <= j < lines_upto(istates, records, n).len() ==> #[trigger] lines_upto(istates, records, n2)[j]
                == lines_upto(istates, records, n)[j],
    decreases n2 - n,
{
    if n < n2 {
        lemma_prefix(istates, records, n, n2 - 1);
    }
}

/// The parser, reading the lines that the interpreter wrote for the first
/// `n` records, stays in step with the interpreter.
proof fn lemma_run_in_step(
    istates: Seq<Interpreter>,
    records: Seq<Record>,
    pstates: Seq<(DataView, u64)>,
    lines: Seq<Seq<u8>>,
    n: int,
)
    requires
        interpreter_run(istates, records),
        forall|k: int| 0 <= k < istates.len() ==> #[trigger] istates[k].wf(),
        istates[0].live() == Map::<u64, usize>::empty(),
        istates[0].signatures() == Seq::<(u64, u64)>::empty(),
        istates[0].counters() == (MemStats { allocations: 0, leaked_allocations: 0, tmp_allocations: 0 }),
        forall|k: int| 0 <= k < records.len() ==> (#[trigger] records[k] is Alloc || records[k] is Free),
        lines == lines_upto(istates, records, records.len() as int),
        parser_run(pstates, lines),
        pstates[0].0 == empty_view(),
        0 <= n <= records.len(),
    ensures
        lines_upto(istates, records, n).len() <= lines.len(),
        in_step(pstates[lines_upto(istates, records, n).len() as int].0, &istates[n], records, n),
    decreases n,
{
    lemma_prefix(istates, records, n, records.len() as int);
    if n == 0 {
        assert(pstates[0].0.allocation_infos.len() == 0);
    } else {
        lemma_run_in_step(istates, records, pstates, lines, n - 1);
        let m = lines_upto(istates, records, n - 1).len() as int;
        let ev = event_lines(&istates[n - 1], records[n - 1]);
        assert(lines_upto(istates, records, n) == lines_upto(istates, records, n - 1) + ev);
        let ps = pstates.subrange(m, m + ev.len() + 1);
        assert forall|j: int| 0 <= j < ev.len() implies #[trigger] ev[j] == lines[m + j] by {
            assert(lines_upto(istates, records, n)[m + j] == ev[j]);
        }
        assert forall|j: int| 0 <= j < ev.len() implies line_effect(
            ps[j].0,
            ps[j].1,
            #[trigger] ev[j],
            ps[j + 1].0,
            ps[j + 1].1,
            Ok(()),
        ) by {
            assert(lines[m + j] == ev[j]);
        }
        assert(parser_run(ps, ev));
        assert(records[n - 1] == records[n - 1]);
        assert(istates[n - 1].wf() && istates[n].wf());
        if records[n - 1] is Alloc {
            lemma_alloc_step(&istates[n - 1], &istates[n], records, n, ps);
        } else {
            assert forall|q: u64| #[trigger] istates[n - 1].live().contains_key(q) == allocated_since(
                records,
                n - 1,
                q,
            ) by {
                lemma_live_are_unfreed(istates, records, n - 1, q);
            }
            lemma_free_step(&istates[n - 1], &istates[n], records, n, ps);
        }
        assert(ps.last() == pstates[m + ev.len()]);
    }
}

/// From a fresh interpreter and an empty report, for a stream of allocations
/// and frees: reading back the lines written, the report counts as many
/// allocations as the interpreter, at most as many temporary ones, and as
/// many bytes live as the allocations that no later free released.
pub proof fn lemma_read_back_totals(
    istates: Seq<Interpreter>,
    records: Seq<Record>,
    pstates: Seq<(DataView, u64)>,
    lines: Seq<Seq<u8>>,
)
    requires
        interpreter_run(istates, records),
        forall|k: int| 0 <= k < istates.len() ==> #[trigger] istates[k].wf(),
        istates[0].live() == Map::<u64, usize>::empty(),
        istates[0].signatures() == Seq::<(u64, u64)>::empty(),
        istates[0].counters() == (MemStats { allocations: 0, leaked_allocations: 0, tmp_allocations: 0 }),
        forall|k: int| 0 <= k < records.len() ==> (#[trigger] records[k] is Alloc || records[k] is Free),
        lines == lines_upto(istates, records, records.len() as int),
        parser_run(pstates, lines),
        pstates[0].0 == empty_view(),
    ensures
        pstates.last().0.total.allocations == istates.last().counters().allocations,
        pstates.last().0.total.temporary <= pstates.last().0.total.allocations,
        pstates.last().0.total.leaked == unfreed_bytes(records, records.len() as int),
{
    lemma_run_in_step(istates, records, pstates, lines, records.len() as int);
    assert(pstates.last() == pstates[lines.len() as int]);
}

/// The lines `ls`, each followed by a newline.
pub open spec fn joined(ls: Seq<Seq<u8>>) -> Seq<u8>
    decreases ls.len(),
{
    if ls.len() == 0 {
        Seq::empty()
    } else {
        joined(ls.drop_last()) + ls.last().push(NEWLINE)
    }
}

/// The text that handling an `Alloc` or a `Free` writes is its event lines,
/// each followed by a newline.
pub proof fn lemma_event_lines_written(before: &Interpreter, record: Record, after: &Interpreter)
    requires
        crate::interpret::record_effect(before, record, after, Ok(())),
        record is Alloc || record is Free,
    ensures
        after.text() == before.text() + joined(event_lines(before, record)),
{
    let ls = event_lines(before, record);
    match record {
        Record::Alloc { ptr, size, parent_idx } => {
            let sig = (size as u64, parent_idx as u64);
            let idx = if before.signatures().contains(sig) {
                before.signatures().index_of(sig)
            } else {
                before.signatures().len() as int
            };
            let plus = line1(TAG_ALLOC, idx as nat);
            assert(plus.drop_last().push(NEWLINE) =~= plus);
            if before.signatures().contains(sig) {
                assert(ls =~= seq![plus.drop_last()]);
                assert(ls.drop_last() =~= Seq::<Seq<u8>>::empty());
                assert(joined(ls.drop_last()) == Seq::<u8>::empty());
                assert(joined(ls) == joined(ls.drop_last()) + ls.last().push(NEWLINE));
                assert(joined(ls) =~= plus);
            } else {
                let a = line2(TAG_TRACE_ALLOC, size as nat, parent_idx as nat);
                assert(a.drop_last().push(NEWLINE) =~= a);
                assert(ls =~= seq![a.drop_last(), plus.drop_last()]);
                assert(ls.drop_last() =~= seq![a.drop_last()]);
                assert(ls.drop_last().drop_last() =~= Seq::<Seq<u8>>::empty());
                assert(joined(ls.drop_last().drop_last()) == Seq::<u8>::empty());
                assert(joined(ls.drop_last()) == joined(ls.drop_last().drop_last()) + ls.drop_last().last().push(NEWLINE));
                assert(joined(ls) == joined(ls.drop_last()) + ls.last().push(NEWLINE));
                assert(joined(ls) =~= a + plus);
            }
            assert(after.text() =~= before.text() + joined(ls));
        },
        Record::Free { ptr } => {
            if before.live().contains_key(ptr as u64) {
                let minus = line1(TAG_FREE, before.live()[ptr as u64] as nat);
                assert(minus.drop_last().push(NEWLINE) =~= minus);
                assert(ls.drop_last() =~= Seq::<Seq<u8>>::empty());
                assert(joined(ls.drop_last()) == Seq::<u8>::empty());
                assert(joined(ls) == joined(ls.drop_last()) + ls.last().push(NEWLINE));
                assert(joined(ls) =~= minus);
            } else {
                assert(joined(ls) =~= Seq::<u8>::empty());
            }
            assert(after.text() =~= before.text() + joined(ls));
        },
        _ => {},
    }
}

} // verus!
