//! The aggregator: reads the textual trace back, line by line, into its
//! tables and rolls up per-trace and global allocation statistics.
use indexmap::IndexMap;
use std::hash::RandomState;
use vstd::prelude::*;
use vstd::string::StringSliceAdditionalSpecFns;
use vstd::utf8::{encode_utf8, is_char_boundary};

use crate::collections::{new_positions, position_of, positions_held, set_position};
pub use crate::output::Frame;
use crate::output::{hex, hex_digit, line1, line2, SPACE};
use crate::text::{
    all_digits, digit_value, hex_token, hex_value, is_ws, parse_hex, token_spans, tokens, tokens_from,
};

verus! {

/// Why a line could not be taken in.
#[derive(Clone, Copy, Debug, PartialEq, Eq, Structural)]
pub enum Error {
    /// A line that does not follow the grammar.
    InvalidFormat,
    /// A reference to an allocation that is not there, or a counter that
    /// would leave its range.
    Internal,
}

/// A frame edge: an instruction pointer id and its parent trace.
#[derive(Clone, Copy, Debug, PartialEq, Eq, Structural)]
pub struct Trace {
    pub ip_idx: u64,
    pub parent_idx: u64,
}

/// An instruction pointer, its module, its inner-most frame and the frames
/// inlined into it.
#[derive(Debug)]
pub struct InstructionPointer {
    pub ip: u64,
    pub module_idx: usize,
    pub frame: Frame,
    pub inlined: Vec<Frame>,
}

impl View for InstructionPointer {
    type V = (u64, usize, Seq<Frame>);

    /// The pointer, its module, and all its frames, inner-most first.
    open spec fn view(&self) -> (u64, usize, Seq<Frame>) {
        (self.ip, self.module_idx, seq![self.frame] + self.inlined@)
    }
}

/// Allocation counts and bytes: all allocations, the temporary ones, the
/// bytes live now and the most bytes ever live at once.
#[derive(Clone, Copy, Debug, PartialEq, Eq, Structural)]
pub struct AllocationData {
    pub allocations: u64,
    pub temporary: u64,
    pub leaked: u64,
    pub peak: u64,
}

pub open spec fn zero_data() -> AllocationData {
    AllocationData { allocations: 0, temporary: 0, leaked: 0, peak: 0 }
}

impl Default for AllocationData {
    fn default() -> (r: Self)
        ensures
            r == zero_data(),
    {
        AllocationData { allocations: 0, temporary: 0, leaked: 0, peak: 0 }
    }
}

/// An allocation of `size` bytes, counted under a trace.
pub open spec fn added(d: AllocationData, size: u64) -> AllocationData {
    let leaked = (d.leaked + size) as u64;
    AllocationData {
        allocations: (d.allocations + 1) as u64,
        temporary: d.temporary,
        leaked,
        peak: if leaked > d.peak {
            leaked
        } else {
            d.peak
        },
    }
}

pub open spec fn fits_added(d: AllocationData, size: u64) -> bool {
    d.leaked + size <= u64::MAX && d.allocations + 1 <= u64::MAX
}

/// A release of `size` bytes, temporary or not.
pub open spec fn removed(d: AllocationData, size: u64, temporary: bool) -> AllocationData {
    AllocationData {
        allocations: d.allocations,
        temporary: if temporary {
            (d.temporary + 1) as u64
        } else {
            d.temporary
        },
        leaked: (d.leaked - size) as u64,
        peak: d.peak,
    }
}

pub open spec fn fits_removed(d: AllocationData, size: u64, temporary: bool) -> bool {
    d.leaked >= size && (temporary ==> d.temporary + 1 <= u64::MAX)
}

/// A signature: the allocation (by trace) it counts under, and its size.
#[derive(Clone, Copy, Debug, PartialEq, Eq, Structural)]
pub struct AllocationInfo {
    pub allocation_idx: u64,
    pub size: u64,
}

impl AllocationInfo {
    pub fn new(allocation_idx: u64, size: u64) -> (r: Self)
        ensures
            r == (AllocationInfo { allocation_idx, size }),
    {
        AllocationInfo { allocation_idx, size }
    }
}

/// The statistics of one trace.
#[derive(Clone, Copy, Debug, PartialEq, Eq, Structural)]
pub struct Allocation {
    pub trace_idx: u64,
    pub data: AllocationData,
}

impl Allocation {
    pub fn new(trace_idx: u64) -> (r: Self)
        ensures
            r == (Allocation { trace_idx, data: zero_data() }),
    {
        Allocation { trace_idx, data: AllocationData::default() }
    }
}

/// Everything read from a trace.
pub struct AccumulatedData {
    pub strings: Vec<String>,
    pub traces: Vec<Trace>,
    pub instruction_pointers: Vec<InstructionPointer>,
    pub allocation_indices: IndexMap<u64, u64, RandomState>,
    pub allocation_infos: Vec<AllocationInfo>,
    pub allocations: Vec<Allocation>,
    pub total: AllocationData,
    /// Elapsed time, in milliseconds.
    pub duration: u64,
    pub peak_rss: u64,
    pub page_size: u64,
    pub pages: u64,
}

/// What a trace has been read into, as values.
pub struct DataView {
    pub strings: Seq<Seq<char>>,
    pub traces: Seq<Trace>,
    pub instruction_pointers: Seq<(u64, usize, Seq<Frame>)>,
    pub allocation_indices: Map<u64, u64>,
    pub allocation_infos: Seq<AllocationInfo>,
    pub allocations: Seq<Allocation>,
    pub total: AllocationData,
    pub duration: u64,
    pub peak_rss: u64,
    pub page_size: u64,
    pub pages: u64,
}

impl View for AccumulatedData {
    type V = DataView;

    open spec fn view(&self) -> DataView {
        DataView {
            strings: self.strings@.map_values(|s: String| s@),
            traces: self.traces@,
            instruction_pointers: self.instruction_pointers@.map_values(
                |p: InstructionPointer| p@,
            ),
            allocation_indices: positions_held(self.allocation_indices),
            allocation_infos: self.allocation_infos@,
            allocations: self.allocations@,
            total: self.total,
            duration: self.duration,
            peak_rss: self.peak_rss,
            page_size: self.page_size,
            pages: self.pages,
        }
    }
}

pub open spec fn empty_view() -> DataView {
    DataView {
        strings: Seq::empty(),
        traces: Seq::empty(),
        instruction_pointers: Seq::empty(),
        allocation_indices: Map::empty(),
        allocation_infos: Seq::empty(),
        allocations: Seq::empty(),
        total: zero_data(),
        duration: 0,
        peak_rss: 0,
        page_size: 0,
        pages: 0,
    }
}

impl AccumulatedData {
    pub fn new() -> (r: Self)
        ensures
            r@ == empty_view(),
    {
        let r = AccumulatedData {
            strings: Vec::new(),
            traces: Vec::new(),
            instruction_pointers: Vec::new(),
            allocation_indices: new_positions(),
            allocation_infos: Vec::new(),
            allocations: Vec::new(),
            total: AllocationData::default(),
            duration: 0,
            peak_rss: 0,
            page_size: 0,
            pages: 0,
        };
        assert(r@.strings =~= Seq::<Seq<char>>::empty());
        assert(r@.instruction_pointers =~= Seq::<(u64, usize, Seq<Frame>)>::empty());
        assert(r@.allocation_indices =~= Map::<u64, u64>::empty());
        r
    }
}

/// The token of the single byte `c`.
pub open spec fn tag(c: u8) -> Seq<u8> {
    seq![c]
}

/// A hexadecimal token that fits in `usize`.
pub open spec fn hex_usize(t: Seq<u8>) -> Option<nat> {
    hex_token(t, usize::MAX as nat)
}

/// A hexadecimal token that fits in `u64`.
pub open spec fn hex_u64(t: Seq<u8>) -> Option<nat> {
    hex_token(t, u64::MAX as nat)
}

/// The frames that the tokens from `k` on write: a function reference,
/// followed by a file reference and a line where the next two tokens are both
/// numbers; `None` where a function reference is not a number.
pub open spec fn frames_from(t: Seq<Seq<u8>>, k: int) -> Option<Seq<Frame>>
    decreases t.len() - k,
{
    if k >= t.len() || k < 0 {
        Some(Seq::empty())
    } else if hex_usize(t[k]) is None {
        None
    } else if k + 2 < t.len() && hex_usize(t[k + 1]) is Some && hex_token(t[k + 2], u32::MAX as nat) is Some {
        match frames_from(t, k + 3) {
            Some(rest) => Some(seq![
                Frame::Multiple {
                    function_idx: hex_usize(t[k])->0 as usize,
                    file_idx: hex_usize(t[k + 1])->0 as usize,
                    line_number: hex_token(t[k + 2], u32::MAX as nat)->0 as u32,
                },
            ] + rest),
            None => None,
        }
    } else {
        match frames_from(t, k + 1) {
            Some(rest) => Some(seq![Frame::Single { function_idx: hex_usize(t[k])->0 as usize }] + rest),
            None => None,
        }
    }
}

/// Where the allocation of trace `trace_idx` stands, once interned into `d`.
pub open spec fn interned_position(d: DataView, trace_idx: u64) -> u64 {
    if d.allocation_indices.contains_key(trace_idx) {
        d.allocation_indices[trace_idx]
    } else {
        d.allocations.len() as u64
    }
}

/// What reading one line does: from `(d, last)` to `(d2, last2)` with outcome
/// `r`. An error leaves everything as it was.
pub open spec fn line_effect(
    d: DataView,
    last: u64,
    line: Seq<u8>,
    d2: DataView,
    last2: u64,
    r: Result<(), Error>,
) -> bool {
    let t = tokens(line);
    let unchanged = d2 == d && last2 == last;
    if t.len() == 0 {
        r is Ok && unchanged
    } else if t[0] == tag(0x73) {
        // s LEN VALUE: the last LEN bytes of the line
        if t.len() < 2 || hex_usize(t[1]) is None {
            r == Err::<(), Error>(Error::InvalidFormat) && unchanged
        } else {
            let n = hex_usize(t[1])->0;
            if n > line.len() || !is_char_boundary(line, line.len() - n) {
                r == Err::<(), Error>(Error::InvalidFormat) && unchanged
            } else {
                &&& r is Ok
                &&& last2 == last
                &&& d2.strings.len() == d.strings.len() + 1
                &&& d2.strings.drop_last() == d.strings
                &&& encode_utf8(d2.strings.last()) == line.subrange(line.len() - n, line.len() as int)
                &&& d2 == (DataView { strings: d2.strings, ..d })
            }
        }
    } else if t[0] == tag(0x74) {
        // t IP PARENT
        if t.len() < 3 || hex_u64(t[1]) is None || hex_u64(t[2]) is None {
            r == Err::<(), Error>(Error::InvalidFormat) && unchanged
        } else {
            &&& r is Ok
            &&& last2 == last
            &&& d2 == (DataView {
                traces: d.traces.push(
                    Trace { ip_idx: hex_u64(t[1])->0 as u64, parent_idx: hex_u64(t[2])->0 as u64 },
                ),
                ..d
            })
        }
    } else if t[0] == tag(0x69) {
        // i IP MODULE FRAME...
        if t.len() < 4 || hex_u64(t[1]) is None || hex_usize(t[2]) is None || frames_from(t, 3) is None {
            r == Err::<(), Error>(Error::InvalidFormat) && unchanged
        } else {
            &&& r is Ok
            &&& last2 == last
            &&& d2 == (DataView {
                instruction_pointers: d.instruction_pointers.push(
                    (hex_u64(t[1])->0 as u64, hex_usize(t[2])->0 as usize, frames_from(t, 3)->0),
                ),
                ..d
            })
        }
    } else if t[0] == tag(0x61) {
        // a SIZE TRACE
        if t.len() < 3 || hex_u64(t[1]) is None || hex_u64(t[2]) is None {
            r == Err::<(), Error>(Error::InvalidFormat) && unchanged
        } else {
            let size = hex_u64(t[1])->0 as u64;
            let trace_idx = hex_u64(t[2])->0 as u64;
            let pos = interned_position(d, trace_idx);
            &&& r is Ok
            &&& last2 == last
            &&& d2 == (DataView {
                allocation_indices: d.allocation_indices.insert(trace_idx, pos),
                allocations: if d.allocation_indices.contains_key(trace_idx) {
                    d.allocations
                } else {
                    d.allocations.push(Allocation { trace_idx, data: zero_data() })
                },
                allocation_infos: d.allocation_infos.push(
                    AllocationInfo { allocation_idx: pos, size },
                ),
                ..d
            })
        }
    } else if t[0] == tag(0x2b) || t[0] == tag(0x2d) {
        // + INFO or - INFO
        if t.len() < 2 || hex_u64(t[1]) is None {
            r == Err::<(), Error>(Error::InvalidFormat) && unchanged
        } else if hex_u64(t[1])->0 >= d.allocation_infos.len() || d.allocation_infos[hex_u64(
            t[1],
        )->0 as int].allocation_idx >= d.allocations.len() {
            r == Err::<(), Error>(Error::Internal) && unchanged
        } else {
            let info = d.allocation_infos[hex_u64(t[1])->0 as int];
            let k = info.allocation_idx as int;
            let a = d.allocations[k];
            if t[0] == tag(0x2b) {
                if !fits_added(a.data, info.size) || !fits_added(d.total, info.size) {
                    r == Err::<(), Error>(Error::Internal) && unchanged
                } else {
                    &&& r is Ok
                    &&& last2 == info.allocation_idx
                    &&& d2 == (DataView {
                        allocations: d.allocations.update(
                            k,
                            Allocation { trace_idx: a.trace_idx, data: added(a.data, info.size) },
                        ),
                        total: added(d.total, info.size),
                        ..d
                    })
                }
            } else {
                let temporary = last == info.allocation_idx;
                if !fits_removed(a.data, info.size, temporary) || !fits_removed(
                    d.total,
                    info.size,
                    temporary,
                ) {
                    r == Err::<(), Error>(Error::Internal) && unchanged
                } else {
                    &&& r is Ok
                    &&& last2 == 0
                    &&& d2 == (DataView {
                        allocations: d.allocations.update(
                            k,
                            Allocation {
                                trace_idx: a.trace_idx,
                                data: removed(a.data, info.size, temporary),
                            },
                        ),
                        total: removed(d.total, info.size, temporary),
                        ..d
                    })
                }
            }
        }
    } else if t[0] == tag(0x63) || t[0] == tag(0x52) {
        // c MS or R BYTES
        if t.len() < 2 || hex_u64(t[1]) is None {
            r == Err::<(), Error>(Error::InvalidFormat) && unchanged
        } else {
            let v = hex_u64(t[1])->0 as u64;
            &&& r is Ok
            &&& last2 == last
            &&& d2 == if t[0] == tag(0x63) {
                DataView { duration: v, ..d }
            } else {
                DataView {
                    peak_rss: if v > d.peak_rss {
                        v
                    } else {
                        d.peak_rss
                    },
                    ..d
                }
            }
        }
    } else if t[0] == tag(0x49) {
        // I SIZE PAGES
        if t.len() < 3 || hex_u64(t[1]) is None || hex_u64(t[2]) is None {
            r == Err::<(), Error>(Error::InvalidFormat) && unchanged
        } else {
            &&& r is Ok
            &&& last2 == last
            &&& d2 == (DataView {
                page_size: hex_u64(t[1])->0 as u64,
                pages: hex_u64(t[2])->0 as u64,
                ..d
            })
        }
    } else {
        // comments and unknown lines
        r is Ok && unchanged
    }
}

/// The token spans of `s` as `token_spans` gives them.
pub open spec fn spans_of(s: Seq<u8>, spans: Seq<(usize, usize)>) -> bool {
    &&& spans.len() == tokens(s).len()
    &&& forall|k: int|
        0 <= k < spans.len() ==> spans[k].0 <= spans[k].1 <= s.len() && s.subrange(
            #[trigger] spans[k].0 as int,
            spans[k].1 as int,
        ) == tokens(s)[k]
}

/// Whether token `k` is the single byte `c`.
fn token_is(s: &[u8], spans: &Vec<(usize, usize)>, k: usize, c: u8) -> (r: bool)
    requires
        spans_of(s@, spans@),
        k < spans@.len(),
    ensures
        r == (tokens(s@)[k as int] == tag(c)),
{
    let (a, b) = spans[k];
    let r = b - a == 1 && s[a] == c;
    proof {
        let t = s@.subrange(a as int, b as int);
        assert(t == tokens(s@)[k as int]);
        if r {
            assert(t =~= tag(c));
        } else if t.len() == 1 {
            assert(t[0] != tag(c)[0]);
        }
    }
    r
}

/// The number that token `k` writes in hexadecimal, where it fits in `u64`.
fn token_hex(s: &[u8], spans: &Vec<(usize, usize)>, k: usize) -> (r: Option<u64>)
    requires
        spans_of(s@, spans@),
        k < spans@.len(),
    ensures
        r is Some <==> hex_u64(tokens(s@)[k as int]) is Some,
        r is Some ==> r->0 == hex_u64(tokens(s@)[k as int])->0,
{
    let (a, b) = spans[k];
    parse_hex(s, a, b)
}

/// The frames written by the tokens from `start` on.
fn parse_frames(s: &[u8], spans: &Vec<(usize, usize)>, start: usize) -> (r: Option<Vec<Frame>>)
    requires
        spans_of(s@, spans@),
        start <= spans@.len(),
    ensures
        r is Some <==> frames_from(tokens(s@), start as int) is Some,
        r is Some ==> r->0@ == frames_from(tokens(s@), start as int)->0,
{
    let ghost t = tokens(s@);
    let mut out: Vec<Frame> = Vec::new();
    let mut k: usize = start;
    proof {
        match frames_from(t, start as int) {
            Some(rest) => {
                assert(out@ + rest =~= rest);
            },
            None => {},
        }
    }
    while k < spans.len()
        invariant
            start <= k <= spans@.len(),
            spans_of(s@, spans@),
            t == tokens(s@),
            frames_from(t, start as int) == match frames_from(t, k as int) {
                Some(rest) => Some(out@ + rest),
                None => None::<Seq<Frame>>,
            },
        decreases spans@.len() - k,
    {
        let function_idx = match token_hex(s, spans, k) {
            Some(v) => v,
            None => {
                return None;
            },
        };
        if function_idx > usize::MAX as u64 {
            return None;
        }
        let mut multiple: Option<(u64, u64)> = None;
        if spans.len() - k > 2 {
            match (token_hex(s, spans, k + 1), token_hex(s, spans, k + 2)) {
                (Some(file_idx), Some(line_number)) => {
                    if file_idx <= usize::MAX as u64 && line_number <= u32::MAX as u64 {
                        multiple = Some((file_idx, line_number));
                    }
                },
                _ => {},
            }
        }
        let ghost before = out@;
        let frame = match multiple {
            Some((file_idx, line_number)) => Frame::Multiple {
                function_idx: function_idx as usize,
                file_idx: file_idx as usize,
                line_number: line_number as u32,
            },
            None => Frame::Single { function_idx: function_idx as usize },
        };
        out.push(frame);
        let step: usize = if multiple.is_some() {
            3
        } else {
            1
        };
        proof {
            match frames_from(t, k + step) {
                Some(rest) => {
                    assert(before.push(frame) + rest =~= before + (seq![frame] + rest));
                },
                None => {},
            }
        }
        k = k + step;
    }
    proof {
        assert(out@ + Seq::<Frame>::empty() =~= out@);
    }
    Some(out)
}

/// Reads a trace line by line.
pub struct Parser {
    data: AccumulatedData,
    last_ptr: u64,
}

impl Parser {
    /// What has been read so far.
    pub closed spec fn state(&self) -> DataView {
        self.data@
    }

    /// The allocation of the last `+` line, until a `-` line clears it.
    pub closed spec fn last(&self) -> u64 {
        self.last_ptr
    }

    pub fn new() -> (r: Self)
        ensures
            r.state() == empty_view(),
            r.last() == 0,
    {
        Parser { data: AccumulatedData::new(), last_ptr: 0 }
    }

    /// What has been read so far.
    pub fn data(&self) -> (r: &AccumulatedData)
        ensures
            r@ == self.state(),
    {
        &self.data
    }

    /// Ends the reading, handing out what was read.
    pub fn into_data(self) -> (r: AccumulatedData)
        ensures
            r@ == self.state(),
    {
        self.data
    }

    /// The position of the allocation of trace `trace_idx`, appending a new
    /// one the first time the trace is seen.
    fn add_allocation(&mut self, trace_idx: u64) -> (r: u64)
        ensures
            r == interned_position(old(self).state(), trace_idx),
            final(self).last() == old(self).last(),
            final(self).state() == (DataView {
                allocation_indices: old(self).state().allocation_indices.insert(trace_idx, r),
                allocations: if old(self).state().allocation_indices.contains_key(trace_idx) {
                    old(self).state().allocations
                } else {
                    old(self).state().allocations.push(Allocation { trace_idx, data: zero_data() })
                },
                ..old(self).state()
            }),
    {
        match position_of(&self.data.allocation_indices, trace_idx) {
            Some(idx) => {
                set_position(&mut self.data.allocation_indices, trace_idx, idx);
                proof {
                    assert(self.state().allocation_indices =~= old(self).state().allocation_indices);
                }
                idx
            },
            None => {
                let idx = self.data.allocations.len() as u64;
                set_position(&mut self.data.allocation_indices, trace_idx, idx);
                self.data.allocations.push(Allocation::new(trace_idx));
                idx
            },
        }
    }

    /// Reads one line of the trace.
    pub fn parse_line(&mut self, line: &str) -> (r: Result<(), Error>)
        ensures
            line_effect(old(self).state(), old(self).last(), line.spec_bytes(), final(self).state(), final(self).last(), r),
    {
        let bytes = line.as_bytes();
        let spans = token_spans(bytes);
        if spans.len() == 0 {
            return Ok(());
        }
        if token_is(bytes, &spans, 0, 0x73) {
            return self.parse_string(line, &spans);
        }
        if token_is(bytes, &spans, 0, 0x74) {
            if spans.len() < 3 {
                return Err(Error::InvalidFormat);
            }
            let ip_idx = match token_hex(bytes, &spans, 1) {
                Some(v) => v,
                None => {
                    return Err(Error::InvalidFormat);
                },
            };
            let parent_idx = match token_hex(bytes, &spans, 2) {
                Some(v) => v,
                None => {
                    return Err(Error::InvalidFormat);
                },
            };
            self.data.traces.push(Trace { ip_idx, parent_idx });
            return Ok(());
        }
        if token_is(bytes, &spans, 0, 0x69) {
            if spans.len() < 4 {
                return Err(Error::InvalidFormat);
            }
            let ip = match token_hex(bytes, &spans, 1) {
                Some(v) => v,
                None => {
                    return Err(Error::InvalidFormat);
                },
            };
            let module_idx = match token_hex(bytes, &spans, 2) {
                Some(v) => v,
                None => {
                    return Err(Error::InvalidFormat);
                },
            };
            if module_idx > usize::MAX as u64 {
                return Err(Error::InvalidFormat);
            }
            let mut frames = match parse_frames(bytes, &spans, 3) {
                Some(f) => f,
                None => {
                    return Err(Error::InvalidFormat);
                },
            };
            if frames.len() == 0 {
                return Err(Error::InvalidFormat);
            }
            let ghost all = frames@;
            let frame = frames.remove(0);
            let pointer = InstructionPointer { ip, module_idx: module_idx as usize, frame, inlined: frames };
            proof {
                assert(pointer@.2 =~= all);
            }
            self.data.instruction_pointers.push(pointer);
            proof {
                assert(self.state().instruction_pointers =~= old(self).state().instruction_pointers.push(pointer@));
            }
            return Ok(());
        }
        if token_is(bytes, &spans, 0, 0x61) {
            if spans.len() < 3 {
                return Err(Error::InvalidFormat);
            }
            let size = match token_hex(bytes, &spans, 1) {
                Some(v) => v,
                None => {
                    return Err(Error::InvalidFormat);
                },
            };
            let trace_idx = match token_hex(bytes, &spans, 2) {
                Some(v) => v,
                None => {
                    return Err(Error::InvalidFormat);
                },
            };
            let allocation_idx = self.add_allocation(trace_idx);
            self.data.allocation_infos.push(AllocationInfo::new(allocation_idx, size));
            return Ok(());
        }
        if token_is(bytes, &spans, 0, 0x2b) {
            return self.parse_event(line, &spans, true);
        }
        if token_is(bytes, &spans, 0, 0x2d) {
            return self.parse_event(line, &spans, false);
        }
        let duration = token_is(bytes, &spans, 0, 0x63);
        if duration || token_is(bytes, &spans, 0, 0x52) {
            if spans.len() < 2 {
                return Err(Error::InvalidFormat);
            }
            let v = match token_hex(bytes, &spans, 1) {
                Some(v) => v,
                None => {
                    return Err(Error::InvalidFormat);
                },
            };
            if duration {
                self.data.duration = v;
            } else if v > self.data.peak_rss {
                self.data.peak_rss = v;
            }
            return Ok(());
        }
        if token_is(bytes, &spans, 0, 0x49) {
            if spans.len() < 3 {
                return Err(Error::InvalidFormat);
            }
            let page_size = match token_hex(bytes, &spans, 1) {
                Some(v) => v,
                None => {
                    return Err(Error::InvalidFormat);
                },
            };
            let pages = match token_hex(bytes, &spans, 2) {
                Some(v) => v,
                None => {
                    return Err(Error::InvalidFormat);
                },
            };
            self.data.page_size = page_size;
            self.data.pages = pages;
            return Ok(());
        }
        Ok(())
    }

    /// `s LEN VALUE`: the last LEN bytes of the line are the string.
    fn parse_string(&mut self, line: &str, spans: &Vec<(usize, usize)>) -> (r: Result<(), Error>)
        requires
            spans_of(line.spec_bytes(), spans@),
            tokens(line.spec_bytes()).len() > 0,
            tokens(line.spec_bytes())[0] == tag(0x73),
        ensures
            line_effect(old(self).state(), old(self).last(), line.spec_bytes(), final(self).state(), final(self).last(), r),
    {
        let bytes = line.as_bytes();
        if spans.len() < 2 {
            return Err(Error::InvalidFormat);
        }
        let n = match token_hex(bytes, spans, 1) {
            Some(n) => n,
            None => {
                return Err(Error::InvalidFormat);
            },
        };
        if n > usize::MAX as u64 || n as usize > bytes.len() {
            return Err(Error::InvalidFormat);
        }
        let mid = bytes.len() - n as usize;
        if !line.is_char_boundary(mid) {
            return Err(Error::InvalidFormat);
        }
        let (_, tail) = line.split_at(mid);
        let value = tail.to_owned();
        self.data.strings.push(value);
        proof {
            assert(self.state().strings =~= old(self).state().strings.push(value@));
            assert(self.state().strings.drop_last() =~= old(self).state().strings);
        }
        Ok(())
    }

    /// `+ INFO` and `- INFO`: an allocation or a release under a signature.
    fn parse_event(&mut self, line: &str, spans: &Vec<(usize, usize)>, alloc: bool) -> (r: Result<
        (),
        Error,
    >)
        requires
            spans_of(line.spec_bytes(), spans@),
            tokens(line.spec_bytes()).len() > 0,
            tokens(line.spec_bytes())[0] == if alloc {
                tag(0x2b)
            } else {
                tag(0x2d)
            },
        ensures
            line_effect(old(self).state(), old(self).last(), line.spec_bytes(), final(self).state(), final(self).last(), r),
    {
        let bytes = line.as_bytes();
        proof {
            assert(tag(0x2b)[0] != tag(0x2d)[0]);
        }
        if spans.len() < 2 {
            return Err(Error::InvalidFormat);
        }
        let idx = match token_hex(bytes, spans, 1) {
            Some(i) => i,
            None => {
                return Err(Error::InvalidFormat);
            },
        };
        if idx >= self.data.allocation_infos.len() as u64 {
            return Err(Error::Internal);
        }
        let info = self.data.allocation_infos[idx as usize];
        if info.allocation_idx >= self.data.allocations.len() as u64 {
            return Err(Error::Internal);
        }
        let k = info.allocation_idx as usize;
        let a = self.data.allocations[k];
        if alloc {
            if a.data.leaked > u64::MAX - info.size || a.data.allocations == u64::MAX
                || self.data.total.leaked > u64::MAX - info.size || self.data.total.allocations
                == u64::MAX {
                return Err(Error::Internal);
            }
            self.data.allocations.set(k, Allocation { trace_idx: a.trace_idx, data: Self::add(a.data, info.size) });
            self.data.total = Self::add(self.data.total, info.size);
            self.last_ptr = info.allocation_idx;
        } else {
            let temporary = self.last_ptr == info.allocation_idx;
            if a.data.leaked < info.size || self.data.total.leaked < info.size {
                return Err(Error::Internal);
            }
            if temporary && (a.data.temporary == u64::MAX || self.data.total.temporary == u64::MAX) {
                return Err(Error::Internal);
            }
            self.data.allocations.set(k, Allocation { trace_idx: a.trace_idx, data: Self::remove(a.data, info.size, temporary) });
            self.data.total = Self::remove(self.data.total, info.size, temporary);
            self.last_ptr = 0;
        }
        Ok(())
    }

    fn add(d: AllocationData, size: u64) -> (r: AllocationData)
        requires
            fits_added(d, size),
        ensures
            r == added(d, size),
    {
        let leaked = d.leaked + size;
        AllocationData {
            allocations: d.allocations + 1,
            temporary: d.temporary,
            leaked,
            peak: if leaked > d.peak {
                leaked
            } else {
                d.peak
            },
        }
    }

    fn remove(d: AllocationData, size: u64, temporary: bool) -> (r: AllocationData)
        requires
            fits_removed(d, size, temporary),
        ensures
            r == removed(d, size, temporary),
    {
        AllocationData {
            allocations: d.allocations,
            temporary: if temporary {
                d.temporary + 1
            } else {
                d.temporary
            },
            leaked: d.leaked - size,
            peak: d.peak,
        }
    }
}

/// `states[i + 1]` is what reading `lines[i]` makes of `states[i]`, each
/// line read without error.
pub open spec fn parser_run(states: Seq<(DataView, u64)>, lines: Seq<Seq<u8>>) -> bool {
    &&& states.len() == lines.len() + 1
    &&& forall|i: int|
        #![trigger lines[i]]
        0 <= i < lines.len() ==> line_effect(
            states[i].0,
            states[i].1,
            lines[i],
            states[i + 1].0,
            states[i + 1].1,
            Ok(()),
        )
}

/// The most bytes live at once among the first `n` states.
pub open spec fn max_leaked(states: Seq<(DataView, u64)>, n: int) -> u64
    decreases n,
{
    if n <= 0 {
        0
    } else {
        let m = max_leaked(states, n - 1);
        let l = states[n - 1].0.total.leaked;
        if l > m {
            l
        } else {
            m
        }
    }
}

/// The number of lines whose first token is the single byte `c`.
pub open spec fn count_tagged(lines: Seq<Seq<u8>>, c: u8) -> nat
    decreases lines.len(),
{
    if lines.len() == 0 {
        0
    } else {
        count_tagged(lines.drop_last(), c) + if tokens(lines.last()).len() > 0 && tokens(
            lines.last(),
        )[0] == tag(c) {
            1nat
        } else {
            0nat
        }
    }
}

/// Reading one line keeps the peak the larger of the old peak and the bytes
/// now live; a `+` line adds one allocation, a `-` line at most one
/// temporary, and no other line changes either count.
proof fn lemma_line_totals(d: DataView, last: u64, line: Seq<u8>, d2: DataView, last2: u64)
    requires
        line_effect(d, last, line, d2, last2, Ok(())),
        d.total.leaked <= d.total.peak,
    ensures
        d2.total.peak == if d2.total.leaked > d.total.peak {
            d2.total.leaked
        } else {
            d.total.peak
        },
        d2.total.allocations == d.total.allocations + if tokens(line).len() > 0 && tokens(line)[0]
            == tag(0x2b) {
            1int
        } else {
            0int
        },
        d2.total.temporary <= d.total.temporary + if tokens(line).len() > 0 && tokens(line)[0]
            == tag(0x2d) {
            1int
        } else {
            0int
        },
{
    let t = tokens(line);
    if t.len() > 0 {
        assert(tag(0x2b)[0] != tag(0x2d)[0]);
        assert(tag(0x73)[0] != tag(0x2b)[0] && tag(0x73)[0] != tag(0x2d)[0]);
        assert(tag(0x74)[0] != tag(0x2b)[0] && tag(0x74)[0] != tag(0x2d)[0]);
        assert(tag(0x69)[0] != tag(0x2b)[0] && tag(0x69)[0] != tag(0x2d)[0]);
        assert(tag(0x61)[0] != tag(0x2b)[0] && tag(0x61)[0] != tag(0x2d)[0]);
    }
}

/// Over any run of lines from an empty report, the total peak is the most
/// bytes that were ever live at once.
pub proof fn lemma_peak_is_max_leaked(states: Seq<(DataView, u64)>, lines: Seq<Seq<u8>>)
    requires
        parser_run(states, lines),
        states[0].0 == empty_view(),
    ensures
        states.last().0.total.peak == max_leaked(states, states.len() as int),
{
    lemma_run_totals(states, lines, lines.len() as int);
}

/// Over any run of lines from an empty report, the total allocation count is
/// the number of `+` lines, and the temporary count is at most the number of
/// `-` lines.
pub proof fn lemma_allocations_count_plus_lines(states: Seq<(DataView, u64)>, lines: Seq<Seq<u8>>)
    requires
        parser_run(states, lines),
        states[0].0 == empty_view(),
    ensures
        states.last().0.total.allocations == count_tagged(lines, 0x2b),
        states.last().0.total.temporary <= count_tagged(lines, 0x2d),
{
    lemma_run_totals(states, lines, lines.len() as int);
    assert(lines.subrange(0, lines.len() as int) =~= lines);
}

proof fn lemma_run_totals(states: Seq<(DataView, u64)>, lines: Seq<Seq<u8>>, n: int)
    requires
        parser_run(states, lines),
        states[0].0 == empty_view(),
        0 <= n <= lines.len(),
    ensures
        states[n].0.total.peak == max_leaked(states, n + 1),
        states[n].0.total.leaked <= states[n].0.total.peak,
        states[n].0.total.allocations == count_tagged(lines.subrange(0, n), 0x2b),
        states[n].0.total.temporary <= count_tagged(lines.subrange(0, n), 0x2d),
    decreases n,
{
    if n == 0 {
        assert(max_leaked(states, 0) == 0);
        assert(states[0].0.total.leaked == 0);
        assert(max_leaked(states, 1) == 0);
        assert(lines.subrange(0, 0) =~= Seq::<Seq<u8>>::empty());
    } else {
        lemma_run_totals(states, lines, n - 1);
        assert(line_effect(
            states[n - 1].0,
            states[n - 1].1,
            lines[n - 1],
            states[n].0,
            states[n].1,
            Ok(()),
        ));
        lemma_line_totals(states[n - 1].0, states[n - 1].1, lines[n - 1], states[n].0, states[n].1);
        assert(lines.subrange(0, n).drop_last() =~= lines.subrange(0, n - 1));
        assert(lines.subrange(0, n).last() == lines[n - 1]);
    }
}

/// The bytes live under all the traces of `allocs` together.
pub open spec fn sum_leaked(allocs: Seq<Allocation>) -> int
    decreases allocs.len(),
{
    if allocs.len() == 0 {
        0
    } else {
        sum_leaked(allocs.drop_last()) + allocs.last().data.leaked
    }
}

proof fn lemma_sum_update(allocs: Seq<Allocation>, k: int, a: Allocation)
    requires
        0 <= k < allocs.len(),
    ensures
        sum_leaked(allocs.update(k, a)) == sum_leaked(allocs) - allocs[k].data.leaked + a.data.leaked,
    decreases allocs.len(),
{
    let u = allocs.update(k, a);
    if k < allocs.len() - 1 {
        lemma_sum_update(allocs.drop_last(), k, a);
        assert(u.drop_last() =~= allocs.drop_last().update(k, a));
    } else {
        assert(u.drop_last() =~= allocs.drop_last());
    }
}

/// Over any run of lines from an empty report, the bytes live in total are
/// the sum of the bytes live under each trace.
pub proof fn lemma_leaked_conserved(states: Seq<(DataView, u64)>, lines: Seq<Seq<u8>>, n: int)
    requires
        parser_run(states, lines),
        states[0].0 == empty_view(),
        0 <= n <= lines.len(),
    ensures
        states[n].0.total.leaked == sum_leaked(states[n].0.allocations),
    decreases n,
{
    if n > 0 {
        lemma_leaked_conserved(states, lines, n - 1);
        let d = states[n - 1].0;
        let d2 = states[n].0;
        assert(line_effect(d, states[n - 1].1, lines[n - 1], d2, states[n].1, Ok(())));
        let t = tokens(lines[n - 1]);
        if t.len() >= 2 && (t[0] == tag(0x2b) || t[0] == tag(0x2d)) && hex_u64(t[1]) is Some
            && hex_u64(t[1])->0 < d.allocation_infos.len() {
            let info = d.allocation_infos[hex_u64(t[1])->0 as int];
            if info.allocation_idx < d.allocations.len() {
                let k = info.allocation_idx as int;
                let a = d.allocations[k];
                if t[0] == tag(0x2b) {
                    lemma_sum_update(
                        d.allocations,
                        k,
                        Allocation { trace_idx: a.trace_idx, data: added(a.data, info.size) },
                    );
                } else {
                    let temporary = states[n - 1].1 == info.allocation_idx;
                    lemma_sum_update(
                        d.allocations,
                        k,
                        Allocation {
                            trace_idx: a.trace_idx,
                            data: removed(a.data, info.size, temporary),
                        },
                    );
                }
            }
        }
        if t.len() > 0 && t[0] == tag(0x61) && d2.allocations != d.allocations {
            assert(d2.allocations.drop_last() =~= d.allocations);
        }
    }
}

/// The digits that `hex` writes are hexadecimal digits, none of them
/// whitespace, and read back to `n`.
pub proof fn lemma_hex_reads_back(n: nat)
    ensures
        hex(n).len() > 0,
        all_digits(hex(n)),
        forall|i: int| 0 <= i < hex(n).len() ==> !is_ws(#[trigger] hex(n)[i]),
        hex_value(hex(n)) == n,
    decreases n,
{
    lemma_digit(n % 16);
    if n < 16 {
        assert(n % 16 == n);
        assert(hex(n).drop_last() =~= Seq::<u8>::empty());
        assert(hex(n).last() == hex_digit(n));
        assert(hex_value(Seq::<u8>::empty()) == 0);
        assert(hex_value(hex(n)) == hex_value(hex(n).drop_last()) * 16 + digit_value(hex(n).last())->0);
    } else {
        lemma_hex_reads_back(n / 16);
        let h = hex(n);
        assert(h.drop_last() =~= hex(n / 16));
        assert(n == (n / 16) * 16 + n % 16);
        assert(h.last() == hex_digit(n % 16));
        assert(hex_value(h) == hex_value(h.drop_last()) * 16 + digit_value(h.last())->0);
        assert forall|i: int| 0 <= i < h.len() implies (#[trigger] digit_value(h[i])) is Some
            && !is_ws(h[i]) by {
            if i < h.len() - 1 {
                assert(h[i] == hex(n / 16)[i]);
            }
        }
    }
}

proof fn lemma_digit(d: nat)
    requires
        d < 16,
    ensures
        digit_value(hex_digit(d)) == Some(d),
        !is_ws(hex_digit(d)),
{
}

/// A run of non-whitespace bytes joins the token begun before it.
proof fn lemma_tokens_run(s: Seq<u8>, i: int, j: int, cur: Seq<u8>)
    requires
        0 <= i <= j <= s.len(),
        forall|k: int| i <= k < j ==> !is_ws(#[trigger] s[k]),
    ensures
        tokens_from(s, i, cur) == tokens_from(s, j, cur + s.subrange(i, j)),
    decreases j - i,
{
    if i < j {
        lemma_tokens_run(s, i + 1, j, cur.push(s[i]));
        assert(cur.push(s[i]) + s.subrange(i + 1, j) =~= cur + s.subrange(i, j));
    } else {
        assert(cur + s.subrange(i, j) =~= cur);
    }
}

/// The tokens of a tag byte, a space and then `rest`.
proof fn lemma_tokens_tagged(c: u8, rest: Seq<u8>)
    requires
        !is_ws(c),
    ensures
        tokens(seq![c, SPACE] + rest) == seq![tag(c)] + tokens(rest),
{
    let s = seq![c, SPACE] + rest;
    assert(Seq::<u8>::empty().push(c) =~= tag(c));
    assert(tokens_from(s, 0, Seq::empty()) == tokens_from(s, 1, tag(c)));
    assert(tokens_from(s, 1, tag(c)) == seq![tag(c)] + tokens_from(s, 2, Seq::empty()));
    assert(s.subrange(2, s.len() as int) =~= rest);
    lemma_tokens_shift(s, rest, 2);
}

/// Tokens read from position `k` of `s` are those of what follows `k`.
proof fn lemma_tokens_shift(s: Seq<u8>, rest: Seq<u8>, k: int)
    requires
        0 <= k <= s.len(),
        s.subrange(k, s.len() as int) == rest,
    ensures
        tokens_from(s, k, Seq::empty()) == tokens(rest),
{
    lemma_tokens_shift_from(s, rest, k, 0, Seq::empty());
}

proof fn lemma_tokens_shift_from(s: Seq<u8>, rest: Seq<u8>, k: int, i: int, cur: Seq<u8>)
    requires
        0 <= k <= s.len(),
        0 <= i <= rest.len(),
        s.subrange(k, s.len() as int) == rest,
    ensures
        tokens_from(s, k + i, cur) == tokens_from(rest, i, cur),
    decreases rest.len() - i,
{
    if i < rest.len() {
        assert(s[k + i] == rest[i]);
        lemma_tokens_shift_from(s, rest, k, i + 1, cur.push(rest[i]));
        lemma_tokens_shift_from(s, rest, k, i + 1, Seq::empty());
    }
}

/// The tokens of the digits of `n`, followed by nothing or by whitespace and
/// `rest`.
proof fn lemma_tokens_number(n: nat, rest: Seq<u8>, sep: bool)
    ensures
        sep ==> tokens(hex(n) + seq![SPACE] + rest) == seq![hex(n)] + tokens(rest),
        tokens(hex(n)) == seq![hex(n)],
{
    lemma_hex_reads_back(n);
    let h = hex(n);
    if sep {
        let s = h + seq![SPACE] + rest;
        assert forall|k: int| 0 <= k < h.len() implies !is_ws(#[trigger] s[k]) by {
            assert(s[k] == h[k]);
        }
        lemma_tokens_run(s, 0, h.len() as int, Seq::empty());
        assert(s.subrange(0, h.len() as int) =~= h);
        assert(Seq::<u8>::empty() + h =~= h);
        assert(s[h.len() as int] == SPACE);
        assert(s.subrange((h.len() + 1) as int, s.len() as int) =~= rest);
        lemma_tokens_shift(s, rest, (h.len() + 1) as int);
    }
    lemma_tokens_run(h, 0, h.len() as int, Seq::empty());
    assert(h.subrange(0, h.len() as int) =~= h);
    assert(Seq::<u8>::empty() + h =~= h);
}

/// A line of one number, as written without its newline, reads back as its
/// tag and that number.
pub proof fn lemma_line1_reads_back(c: u8, n: u64)
    requires
        !is_ws(c),
    ensures
        tokens(line1(c, n as nat).drop_last()) == seq![tag(c), hex(n as nat)],
        hex_u64(hex(n as nat)) == Some(n as nat),
{
    lemma_hex_reads_back(n as nat);
    lemma_tokens_number(n as nat, Seq::empty(), false);
    assert(line1(c, n as nat).drop_last() =~= seq![c, SPACE] + hex(n as nat));
    lemma_tokens_tagged(c, hex(n as nat));
    assert(seq![tag(c)] + seq![hex(n as nat)] =~= seq![tag(c), hex(n as nat)]);
}

/// A line of two numbers, as written without its newline, reads back as its
/// tag and those numbers.
pub proof fn lemma_line2_reads_back(c: u8, a: u64, b: u64)
    requires
        !is_ws(c),
    ensures
        tokens(line2(c, a as nat, b as nat).drop_last()) == seq![
            tag(c),
            hex(a as nat),
            hex(b as nat),
        ],
        hex_u64(hex(a as nat)) == Some(a as nat),
        hex_u64(hex(b as nat)) == Some(b as nat),
{
    lemma_hex_reads_back(a as nat);
    lemma_hex_reads_back(b as nat);
    lemma_tokens_number(b as nat, Seq::empty(), false);
    lemma_tokens_number(a as nat, hex(b as nat), true);
    assert(line2(c, a as nat, b as nat).drop_last() =~= seq![c, SPACE] + (hex(a as nat) + seq![SPACE]
        + hex(b as nat)));
    lemma_tokens_tagged(c, hex(a as nat) + seq![SPACE] + hex(b as nat));
    assert(seq![tag(c)] + (seq![hex(a as nat)] + seq![hex(b as nat)]) =~= seq![
        tag(c),
        hex(a as nat),
        hex(b as nat),
    ]);
}

/// The `+` line written for signature `idx`, read back where that signature
/// is known and the counters have room, adds one allocation of its size.
pub proof fn lemma_alloc_line_round_trip(
    idx: u64,
    d: DataView,
    last: u64,
    d2: DataView,
    last2: u64,
    r: Result<(), Error>,
)
    requires
        line_effect(d, last, line1(0x2b, idx as nat).drop_last(), d2, last2, r),
        idx < d.allocation_infos.len(),
        d.allocation_infos[idx as int].allocation_idx < d.allocations.len(),
        fits_added(d.total, d.allocation_infos[idx as int].size),
        fits_added(
            d.allocations[d.allocation_infos[idx as int].allocation_idx as int].data,
            d.allocation_infos[idx as int].size,
        ),
    ensures
        r is Ok,
        d2.total.allocations == d.total.allocations + 1,
        d2.total.leaked == d.total.leaked + d.allocation_infos[idx as int].size,
        last2 == d.allocation_infos[idx as int].allocation_idx,
{
    lemma_line1_reads_back(0x2b, idx);
    assert(tag(0x2b)[0] != tag(0x73)[0]);
}

/// The `-` line written for signature `idx`, read back where that signature
/// is known and its bytes are live, releases its size.
pub proof fn lemma_free_line_round_trip(
    idx: u64,
    d: DataView,
    last: u64,
    d2: DataView,
    last2: u64,
    r: Result<(), Error>,
)
    requires
        line_effect(d, last, line1(0x2d, idx as nat).drop_last(), d2, last2, r),
        idx < d.allocation_infos.len(),
        d.allocation_infos[idx as int].allocation_idx < d.allocations.len(),
        fits_removed(
            d.total,
            d.allocation_infos[idx as int].size,
            last == d.allocation_infos[idx as int].allocation_idx,
        ),
        fits_removed(
            d.allocations[d.allocation_infos[idx as int].allocation_idx as int].data,
            d.allocation_infos[idx as int].size,
            last == d.allocation_infos[idx as int].allocation_idx,
        ),
    ensures
        r is Ok,
        d2.total.allocations == d.total.allocations,
        d2.total.leaked == d.total.leaked - d.allocation_infos[idx as int].size,
        last2 == 0,
{
    lemma_line1_reads_back(0x2d, idx);
    assert(tag(0x2d)[0] != tag(0x73)[0] && tag(0x2d)[0] != tag(0x2b)[0]);
    assert(tag(0x2d)[0] != tag(0x74)[0] && tag(0x2d)[0] != tag(0x69)[0] && tag(0x2d)[0] != tag(
        0x61,
    )[0]);
}

/// The `a` line written for a new signature `(size, trace_idx)`, read back,
/// appends that signature with the same size under the allocation of its
/// trace.
pub proof fn lemma_signature_line_round_trip(
    size: u64,
    trace_idx: u64,
    d: DataView,
    last: u64,
    d2: DataView,
    last2: u64,
    r: Result<(), Error>,
)
    requires
        line_effect(d, last, line2(0x61, size as nat, trace_idx as nat).drop_last(), d2, last2, r),
    ensures
        r is Ok,
        last2 == last,
        d2.allocation_infos == d.allocation_infos.push(
            AllocationInfo { allocation_idx: interned_position(d, trace_idx), size },
        ),
        d2.total == d.total,
{
    lemma_line2_reads_back(0x61, size, trace_idx);
    assert(tag(0x61)[0] != tag(0x73)[0] && tag(0x61)[0] != tag(0x74)[0] && tag(0x61)[0] != tag(
        0x69,
    )[0]);
}

} // verus!
