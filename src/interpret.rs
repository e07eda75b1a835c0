//! The interpreter: consumes the record stream, interns strings, frames and
//! allocation signatures, tracks live pointers and streams the textual trace.
use indexmap::IndexSet;
use std::hash::RandomState;
use vstd::prelude::*;
use vstd::string::StringSliceAdditionalSpecFns;
use vstd::utf8::encode_utf8;

use crate::collections::{
    count_ips, count_strings, intern_ip, intern_signature, intern_string, interned, ips_held,
    new_ips, new_signatures, new_strings, signatures_held, strings_held,
};
use crate::output::{
    dec, instruction_line, line1, line2, line_raw, string_line, Frame, Output, NEWLINE, SPACE,
    TAG_ALLOC, TAG_COMMENT, TAG_DURATION,
    TAG_EXEC, TAG_FREE, TAG_PAGE_INFO, TAG_RSS, TAG_TRACE, TAG_TRACE_ALLOC, TAG_VERSION,
};
use crate::pointers::PointerTable;
use crate::record::Record;
use crate::resolver::{LocationView, Resolver};

verus! {

/// The version of the textual trace format that the interpreter writes.
pub const FILE_VERSION: u16 = 3;

/// Counters of the allocations seen.
#[derive(Clone, Copy, Debug, PartialEq, Eq, Structural)]
pub struct MemStats {
    pub allocations: u64,
    pub leaked_allocations: u64,
    pub tmp_allocations: u64,
}

/// Why an interpretation run failed.
#[derive(Clone, Copy, Debug, PartialEq, Eq, Structural)]
pub enum Error {
    /// An instruction pointer that no registered module resolves.
    LocationsNotFound,
    /// A location with a file but without a line.
    EmptyLineNumber,
}

pub struct Interpreter {
    output: Output,
    strings: IndexSet<String, RandomState>,
    frames: IndexSet<u64, RandomState>,
    pointers: PointerTable,
    allocation_info: IndexSet<(u64, u64), RandomState>,
    resolver: Resolver,
    stats: MemStats,
    last_ptr: usize,
}

impl Interpreter {
    /// The trace text written and not yet handed out.
    pub closed spec fn text(&self) -> Seq<u8> {
        self.output.text()
    }

    /// The interned strings; the reference of each is its position plus one.
    pub closed spec fn strings(&self) -> Seq<Seq<char>> {
        strings_held(self.strings)
    }

    /// The interned instruction pointers; the id of each is its position plus one.
    pub closed spec fn ips(&self) -> Seq<u64> {
        ips_held(self.frames)
    }

    /// The interned `(size, parent trace)` signatures, by 0-based index.
    pub closed spec fn signatures(&self) -> Seq<(u64, u64)> {
        signatures_held(self.allocation_info)
    }

    /// The live pointers, each with its signature index.
    pub closed spec fn live(&self) -> Map<u64, usize> {
        self.pointers@
    }

    pub closed spec fn counters(&self) -> MemStats {
        self.stats
    }

    pub closed spec fn last(&self) -> usize {
        self.last_ptr
    }

    /// Whether a registered module covers `ip`.
    pub closed spec fn covers(&self, ip: u64) -> bool {
        self.resolver.covers(ip)
    }

    /// The id of the module that covers `ip`.
    pub closed spec fn module_id_at(&self, ip: u64) -> usize {
        self.resolver.module_id_at(ip)
    }

    /// The resolver's remembered lookups.
    pub closed spec fn lookups(&self) -> Map<u64, (usize, Seq<LocationView>)> {
        self.resolver.cache()
    }

    pub closed spec fn wf(&self) -> bool {
        &&& self.pointers.wf()
        &&& self.resolver.wf()
        &&& self.strings().no_duplicates()
        &&& self.ips().no_duplicates()
        &&& self.signatures().no_duplicates()
        &&& self.signatures().len() <= isize::MAX
        &&& self.stats.tmp_allocations + self.stats.leaked_allocations <= self.stats.allocations
        &&& self.live().dom().finite()
        &&& self.live().dom().len() <= self.stats.leaked_allocations
        &&& forall|p: u64| #[trigger]
            self.live().contains_key(p) ==> self.live()[p] < self.signatures().len()
    }

    /// Everything but the text, the strings and the resolver is as in `other`.
    pub open spec fn same_tables(&self, other: &Self) -> bool {
        &&& self.ips() == other.ips()
        &&& self.signatures() == other.signatures()
        &&& self.live() == other.live()
        &&& self.counters() == other.counters()
        &&& self.last() == other.last()
    }

    /// Nothing but the text is changed from `other`.
    pub open spec fn same_state(&self, other: &Self) -> bool {
        &&& self.same_tables(other)
        &&& self.strings() == other.strings()
        &&& self.lookups() == other.lookups()
    }

    pub fn new() -> (r: Self)
        ensures
            r.wf(),
            r.text() == Seq::<u8>::empty(),
            r.strings() == Seq::<Seq<char>>::empty(),
            r.ips() == Seq::<u64>::empty(),
            r.signatures() == Seq::<(u64, u64)>::empty(),
            r.live() == Map::<u64, usize>::empty(),
            r.counters() == (MemStats { allocations: 0, leaked_allocations: 0, tmp_allocations: 0 }),
            r.last() == 0,
    {
        let r = Interpreter {
            output: Output::new(),
            strings: new_strings(),
            frames: new_ips(),
            pointers: PointerTable::new(),
            allocation_info: new_signatures(),
            resolver: Resolver::new(),
            stats: MemStats { allocations: 0, leaked_allocations: 0, tmp_allocations: 0 },
            last_ptr: 0,
        };
        assert(r.live().dom() =~= Set::<u64>::empty());
        r
    }

    /// The counters as they stand.
    pub fn mem_stats(&self) -> (r: MemStats)
        ensures
            r == self.counters(),
    {
        self.stats
    }

    /// Hands out the trace text written so far.
    pub fn take_output(&mut self) -> (r: Vec<u8>)
        requires
            old(self).wf(),
        ensures
            final(self).wf(),
            r@ == old(self).text(),
            final(self).text() == Seq::<u8>::empty(),
            final(self).same_state(old(self)),
    {
        self.output.flush()
    }

    /// Interns `value`, writing its string line when it is new; returns its
    /// 1-based reference.
    pub fn write_string(&mut self, value: &str) -> (r: usize)
        requires
            old(self).wf(),
        ensures
            final(self).wf(),
            final(self).same_tables(old(self)),
            final(self).lookups() == old(self).lookups(),
            forall|ip: u64| #[trigger] final(self).covers(ip) == old(self).covers(ip),
            interned(old(self).strings(), value@, final(self).strings(), ((r - 1) as usize, !old(self).strings().contains(value@))),
            r >= 1,
            final(self).text() == if old(self).strings().contains(value@) {
                old(self).text()
            } else {
                old(self).text() + string_line(value.spec_bytes())
            },
            prefix_of(old(self).strings(), final(self).strings()),
            final(self).strings().contains(value@),
            r == ref_of(final(self).strings(), value@),
            final(self).text() == old(self).text() + string_lines(
                final(self).strings().subrange(
                    old(self).strings().len() as int,
                    final(self).strings().len() as int,
                ),
            ),
    {
        let (id, inserted) = intern_string(&mut self.strings, value.to_owned());
        if inserted {
            self.output.write_string(value);
        }
        proof {
            let s0 = old(self).strings();
            let s1 = self.strings();
            if inserted {
                lemma_push_distinct(s0, value@);
                assert(s1.subrange(s0.len() as int, s1.len() as int) =~= seq![value@]);
                assert(seq![value@].drop_last() =~= Seq::<Seq<char>>::empty());
                assert(string_lines(seq![value@]) == string_lines(Seq::<Seq<char>>::empty()) + string_line(encode_utf8(value@)));
                assert(string_lines(seq![value@]) =~= string_line(encode_utf8(value@)));
            } else {
                assert(s1.subrange(s0.len() as int, s1.len() as int) =~= Seq::<Seq<char>>::empty());
                assert(old(self).text() + Seq::<u8>::empty() =~= old(self).text());
            }
            assert(s1.subrange(0, s0.len() as int) =~= s0);
            lemma_ref(s1, id as int, value@);
        }
        id + 1
    }

    /// Interns `(size, parent_idx)`, writing its signature line when it is
    /// new; returns its 0-based index.
    fn add_alloc(&mut self, size: u64, parent_idx: u64) -> (r: usize)
        requires
            old(self).wf(),
        ensures
            final(self).wf(),
            final(self).strings() == old(self).strings(),
            final(self).lookups() == old(self).lookups(),
            final(self).ips() == old(self).ips(),
            final(self).live() == old(self).live(),
            final(self).counters() == old(self).counters(),
            final(self).last() == old(self).last(),
            interned(old(self).signatures(), (size, parent_idx), final(self).signatures(), (r, !old(self).signatures().contains((size, parent_idx)))),
            final(self).text() == if old(self).signatures().contains((size, parent_idx)) {
                old(self).text()
            } else {
                old(self).text() + line2(TAG_TRACE_ALLOC, size as nat, parent_idx as nat)
            },
    {
        let (idx, inserted) = intern_signature(&mut self.allocation_info, (size, parent_idx));
        if inserted {
            self.output.write_trace_alloc(size, parent_idx);
        }
        proof {
            if inserted {
                lemma_push_distinct(old(self).signatures(), (size, parent_idx));
            }
        }
        idx
    }

    /// Interns `ip`; when it is new, resolves it, interns the strings of its
    /// locations and writes its instruction line. Returns its 1-based id.
    pub fn add_frame(&mut self, ip: u64) -> (r: Result<usize, Error>)
        requires
            old(self).wf(),
        ensures
            final(self).wf(),
            final(self).signatures() == old(self).signatures(),
            final(self).live() == old(self).live(),
            final(self).counters() == old(self).counters(),
            final(self).last() == old(self).last(),
            prefix_of(old(self).strings(), final(self).strings()),
            old(self).ips().contains(ip) ==> final(self).same_state(old(self)) && final(self).text()
                == old(self).text() && r is Ok && 0 < r->Ok_0 <= old(self).ips().len() && old(self).ips()[r->Ok_0 - 1] == ip,
            !old(self).ips().contains(ip) ==> final(self).ips() == old(self).ips().push(ip),
            !old(self).ips().contains(ip) ==> (r is Ok <==> final(self).lookups().contains_key(ip)),
            !old(self).ips().contains(ip) && !old(self).lookups().contains_key(ip)
                && !old(self).covers(ip) ==> r == Err::<usize, Error>(Error::LocationsNotFound),
            r is Err ==> r == Err::<usize, Error>(Error::LocationsNotFound) && final(self).text()
                == old(self).text() && final(self).strings() == old(self).strings(),
            !old(self).ips().contains(ip) && r is Ok ==> r->Ok_0 == final(self).ips().len()
                && final(self).text() == old(self).text() + string_lines(
                final(self).strings().subrange(
                    old(self).strings().len() as int,
                    final(self).strings().len() as int,
                ),
            ) + instruction_line(
                ip as nat,
                final(self).lookups()[ip].0 as nat,
                frames_for(final(self).strings(), final(self).lookups()[ip].1),
            ),
    {
        let (id, inserted) = intern_ip(&mut self.frames, ip);
        proof {
            assert(old(self).strings().subrange(0, old(self).strings().len() as int) =~= old(self).strings());
        }
        if !inserted {
            return Ok(id + 1);
        }
        proof {
            lemma_push_distinct(old(self).ips(), ip);
        }
        let result = match self.resolver.lookup(ip) {
            Some(res) => res,
            None => {
                return Err(Error::LocationsNotFound);
            },
        };
        let ghost s0 = old(self).strings();
        let ghost locs = result@.1;
        let mut frames: Vec<Frame> = Vec::new();
        let mut i: usize = 0;
        proof {
            assert(self.strings().subrange(s0.len() as int, s0.len() as int) =~= Seq::<Seq<char>>::empty());
            assert(self.text() =~= old(self).text() + string_lines(Seq::<Seq<char>>::empty()));
            assert(self.strings().subrange(0, s0.len() as int) =~= s0);
        }
        while i < result.locations.len()
            invariant
                self.wf(),
                result.wf(),
                locs == result@.1,
                i <= result.locations@.len(),
                frames@.len() == i,
                self.ips() == old(self).ips().push(ip),
                self.signatures() == old(self).signatures(),
                self.live() == old(self).live(),
                self.counters() == old(self).counters(),
                self.last() == old(self).last(),
                self.lookups().contains_key(ip),
                self.lookups()[ip] == result@,
                prefix_of(s0, self.strings()),
                self.text() == old(self).text() + string_lines(
                    self.strings().subrange(s0.len() as int, self.strings().len() as int),
                ),
                forall|j: int|
                    0 <= j < i ==> holds_names(self.strings(), #[trigger] locs[j]) && frames@[j]
                        == frame_for(self.strings(), locs[j]),
            decreases result.locations@.len() - i,
        {
            let location = &result.locations[i];
            let ghost l = locs[i as int];
            assert(location@ == l);
            let ghost sa = self.strings();
            let ghost ta = self.text();
            let function_idx = self.write_string(location.function_name.as_str());
            proof {
                lemma_append_strings(old(self).text(), s0, sa, self.strings(), ta, self.text());
            }
            let ghost sb = self.strings();
            let ghost tb = self.text();
            let frame = match &location.file_name {
                Some(file) => {
                    let file_idx = self.write_string(file.as_str());
                    proof {
                        lemma_append_strings(old(self).text(), s0, sb, self.strings(), tb, self.text());
                        lemma_ref_stable(sb, self.strings(), location.function_name@);
                        lemma_prefix_trans(sa, sb, self.strings());
                    }
                    let line_number = match location.line_number {
                        Some(n) => n,
                        None => {
                            assert(result.locations@[i as int].file_name is Some);
                            return Err(Error::EmptyLineNumber);
                        },
                    };
                    Frame::Multiple { function_idx, file_idx, line_number }
                },
                None => Frame::Single { function_idx },
            };
            proof {
                assert(frame == frame_for(self.strings(), l));
                assert(holds_names(self.strings(), l));
                assert forall|j: int| 0 <= j < i implies holds_names(self.strings(), #[trigger] locs[j])
                    && frames@[j] == frame_for(self.strings(), locs[j]) by {
                    lemma_names_stable(sa, self.strings(), locs[j]);
                }
            }
            frames.push(frame);
            i = i + 1;
        }
        proof {
            assert(frames@ =~= frames_for(self.strings(), locs));
        }
        self.output.write_instruction(ip, result.module_id, frames.as_slice());
        Ok(id + 1)
    }

    /// Ends the trace: a blank line, then the number of strings and of
    /// instruction pointers interned, as comments.
    pub fn write_comments(&mut self)
        requires
            old(self).wf(),
        ensures
            final(self).wf(),
            final(self).same_state(old(self)),
            final(self).text() == old(self).text() + seq![NEWLINE] + count_line(
                "strings"@,
                old(self).strings().len(),
            ) + count_line("ips"@, old(self).ips().len()),
    {
        self.output.write("");
        let strings = count_strings(&self.strings);
        self.output.write_count("strings", strings as u64);
        let ips = count_ips(&self.frames);
        self.output.write_count("ips", ips as u64);
        proof {
            reveal_strlit("");
            assert(""@ =~= Seq::<char>::empty());
            assert(encode_utf8(""@) =~= Seq::<u8>::empty());
            assert(self.text() =~= old(self).text() + seq![NEWLINE] + count_line(
                "strings"@,
                old(self).strings().len(),
            ) + count_line("ips"@, old(self).ips().len()));
        }
    }

    /// Handles one record of the stream.
    pub fn handle_record(&mut self, record: Record) -> (r: Result<(), Error>)
        requires
            old(self).wf(),
            record is Alloc ==> old(self).counters().allocations < u64::MAX,
        ensures
            final(self).wf(),
            record_effect(old(self), record, final(self), r),
    {
        match record {
            Record::Version(version) => {
                self.output.write_version(version, FILE_VERSION);
            },
            Record::Exec(cmd) => {
                self.output.write_exec(cmd.as_str());
            },
            Record::Image { name, start_address, size } => {
                let module_id = self.write_string(name.as_str());
                let ghost after_name = *self;
                let loaded = self.resolver.add_module(
                    module_id,
                    name.as_str(),
                    start_address as u64,
                    size as u64,
                );
                proof {
                    assert(module_id == ref_of(self.strings(), name@));
                    if loaded is Ok {
                        assert forall|ip: u64|
                            start_address as u64 <= ip < start_address as u64 + size as u64 implies
                            #[trigger] self.covers(ip) && self.module_id_at(ip) == module_id by {
                            assert(self.resolver.covers(ip));
                            assert(self.resolver.module_id_at(ip) == module_id);
                        }
                    } else {
                        assert forall|ip: u64| #[trigger] self.covers(ip) == old(self).covers(ip) by {
                            assert(after_name.covers(ip) == old(self).covers(ip));
                        }
                    }
                    assert forall|ip: u64|
                        !(start_address as u64 <= ip < start_address as u64 + size as u64)
                        implies #[trigger] self.covers(ip) == old(self).covers(ip) by {
                        assert(after_name.covers(ip) == old(self).covers(ip));
                    }
                }
            },
            Record::PageInfo { size, pages } => {
                self.output.write_page_info(size as u64, pages as u64);
            },
            Record::Trace { ip, parent_idx } => {
                let ip_id = match self.add_frame(ip as u64) {
                    Ok(id) => id,
                    Err(e) => {
                        return Err(e);
                    },
                };
                self.output.write_trace(ip_id, parent_idx as u64);
                proof {
                    if old(self).ips().contains(ip as u64) {
                        old(self).ips().index_of_first(ip as u64);
                        assert(old(self).ips().index_of(ip as u64) == ip_id - 1) by {
                            if old(self).ips().index_of(ip as u64) != ip_id - 1 {
                                assert(old(self).ips()[old(self).ips().index_of(ip as u64)]
                                    == old(self).ips()[ip_id - 1]);
                            }
                        }
                    }
                }
            },
            Record::Alloc { ptr, size, parent_idx } => {
                self.stats.allocations = self.stats.allocations + 1;
                self.stats.leaked_allocations = self.stats.leaked_allocations + 1;
                let idx = self.add_alloc(size as u64, parent_idx as u64);
                self.pointers.add_pointer(ptr as u64, idx);
                self.last_ptr = ptr;
                self.output.write_alloc(idx);
            },
            Record::Free { ptr } => {
                let temporary = self.last_ptr == ptr;
                self.last_ptr = 0;
                let allocation_idx = match self.pointers.take_pointer(ptr as u64) {
                    Some(i) => i,
                    None => {
                        assert(self.live() =~= old(self).live());
                        return Ok(());
                    },
                };
                self.output.write_free(allocation_idx);
                if temporary {
                    self.stats.tmp_allocations = self.stats.tmp_allocations + 1;
                }
                self.stats.leaked_allocations = self.stats.leaked_allocations - 1;
            },
            Record::Duration(duration) => {
                self.output.write_duration(duration);
            },
            Record::RSS(rss) => {
                self.output.write_rss(rss as u64);
            },
        }
        Ok(())
    }
}

/// The comment line `# LABEL: N`, with `n` in decimal.
pub open spec fn count_line(label: Seq<char>, n: nat) -> Seq<u8> {
    seq![TAG_COMMENT, SPACE] + encode_utf8(label) + seq![0x3au8, SPACE] + dec(n) + seq![NEWLINE]
}

/// Either the image did not load and no address changed whether it is
/// covered, or every address of `[start, start + size)` is covered by the
/// module `id`.
pub open spec fn registered(before: &Interpreter, after: &Interpreter, start: u64, size: u64, id: usize) -> bool {
    ||| forall|ip: u64| #[trigger] after.covers(ip) == before.covers(ip)
    ||| forall|ip: u64|
        #![trigger after.covers(ip)]
        #![trigger after.module_id_at(ip)]
        start <= ip < start + size ==> after.covers(ip) && after.module_id_at(ip) == id
}

/// `a` begins `b`.
pub open spec fn prefix_of<T>(a: Seq<T>, b: Seq<T>) -> bool {
    a.len() <= b.len() && b.subrange(0, a.len() as int) == a
}

/// The 1-based reference of the string `s` among `strings`.
pub open spec fn ref_of(strings: Seq<Seq<char>>, s: Seq<char>) -> usize {
    (strings.index_of(s) + 1) as usize
}

/// The string lines of `ss`, in order.
pub open spec fn string_lines(ss: Seq<Seq<char>>) -> Seq<u8>
    decreases ss.len(),
{
    if ss.len() == 0 {
        Seq::empty()
    } else {
        string_lines(ss.drop_last()) + string_line(encode_utf8(ss.last()))
    }
}

/// Whether `strings` holds the function name of `l` and its file, if any.
pub open spec fn holds_names(strings: Seq<Seq<char>>, l: LocationView) -> bool {
    &&& strings.contains(l.0)
    &&& l.1 is Some ==> strings.contains(l.1->0)
}

/// The frame written for the location `l`: its function alone where it has
/// no file, else its function, file and line.
pub open spec fn frame_for(strings: Seq<Seq<char>>, l: LocationView) -> Frame {
    match l.1 {
        None => Frame::Single { function_idx: ref_of(strings, l.0) },
        Some(file) => Frame::Multiple {
            function_idx: ref_of(strings, l.0),
            file_idx: ref_of(strings, file),
            line_number: l.2->0,
        },
    }
}

/// The frames written for the locations `locs`, in order.
pub open spec fn frames_for(strings: Seq<Seq<char>>, locs: Seq<LocationView>) -> Seq<Frame> {
    locs.map_values(|l: LocationView| frame_for(strings, l))
}

/// In a sequence without duplicates, an element at `k` is found at `k`.
proof fn lemma_ref(ss: Seq<Seq<char>>, k: int, x: Seq<char>)
    requires
        ss.no_duplicates(),
        0 <= k < ss.len(),
        ss[k] == x,
    ensures
        ss.contains(x),
        ss.index_of(x) == k,
{
    assert(ss.contains(x));
    ss.index_of_first(x);
    if ss.index_of(x) != k {
        assert(ss[ss.index_of(x)] == ss[k]);
    }
}

/// Extending a sequence without duplicates keeps where its elements are.
proof fn lemma_ref_stable(a: Seq<Seq<char>>, b: Seq<Seq<char>>, x: Seq<char>)
    requires
        prefix_of(a, b),
        b.no_duplicates(),
        a.contains(x),
    ensures
        b.contains(x),
        b.index_of(x) == a.index_of(x),
{
    a.index_of_first(x);
    let k = a.index_of(x);
    assert(b[k] == b.subrange(0, a.len() as int)[k]);
    lemma_ref(b, k, x);
}

proof fn lemma_prefix_trans<T>(a: Seq<T>, b: Seq<T>, c: Seq<T>)
    requires
        prefix_of(a, b),
        prefix_of(b, c),
    ensures
        prefix_of(a, c),
{
    assert(c.subrange(0, a.len() as int) =~= a) by {
        assert forall|k: int| 0 <= k < a.len() implies c[k] == a[k] by {
            assert(c.subrange(0, b.len() as int)[k] == c[k]);
            assert(b.subrange(0, a.len() as int)[k] == b[k]);
        }
    }
}

proof fn lemma_names_stable(a: Seq<Seq<char>>, b: Seq<Seq<char>>, l: LocationView)
    requires
        prefix_of(a, b),
        b.no_duplicates(),
        holds_names(a, l),
    ensures
        holds_names(b, l),
        frame_for(b, l) == frame_for(a, l),
{
    lemma_ref_stable(a, b, l.0);
    if l.1 is Some {
        lemma_ref_stable(a, b, l.1->0);
    }
}

proof fn lemma_string_lines_concat(a: Seq<Seq<char>>, b: Seq<Seq<char>>)
    ensures
        string_lines(a + b) == string_lines(a) + string_lines(b),
    decreases b.len(),
{
    if b.len() == 0 {
        assert(a + b =~= a);
        assert(string_lines(a) + Seq::<u8>::empty() =~= string_lines(a));
    } else {
        lemma_string_lines_concat(a, b.drop_last());
        assert((a + b).drop_last() =~= a + b.drop_last());
        assert((a + b).last() == b.last());
        assert(string_lines(a) + (string_lines(b.drop_last()) + string_line(encode_utf8(b.last())))
            =~= string_lines(a) + string_lines(b.drop_last()) + string_line(encode_utf8(b.last())));
    }
}

/// Interning more strings after `mid` keeps the text the string lines of
/// all strings added since `s0`.
proof fn lemma_append_strings(
    t0: Seq<u8>,
    s0: Seq<Seq<char>>,
    sa: Seq<Seq<char>>,
    sb: Seq<Seq<char>>,
    ta: Seq<u8>,
    tb: Seq<u8>,
)
    requires
        prefix_of(s0, sa),
        prefix_of(sa, sb),
        ta == t0 + string_lines(sa.subrange(s0.len() as int, sa.len() as int)),
        tb == ta + string_lines(sb.subrange(sa.len() as int, sb.len() as int)),
    ensures
        prefix_of(s0, sb),
        tb == t0 + string_lines(sb.subrange(s0.len() as int, sb.len() as int)),
{
    let x = sa.subrange(s0.len() as int, sa.len() as int);
    let y = sb.subrange(sa.len() as int, sb.len() as int);
    assert(sb.subrange(s0.len() as int, sb.len() as int) =~= x + y) by {
        assert forall|k: int| 0 <= k < x.len() implies x[k] == sb[s0.len() + k] by {
            assert(sb.subrange(0, sa.len() as int)[s0.len() + k] == sb[s0.len() + k]);
        }
    }
    assert(sb.subrange(0, s0.len() as int) =~= s0) by {
        assert forall|k: int| 0 <= k < s0.len() implies sb[k] == s0[k] by {
            assert(sb.subrange(0, sa.len() as int)[k] == sb[k]);
            assert(sa.subrange(0, s0.len() as int)[k] == sa[k]);
        }
    }
    lemma_string_lines_concat(x, y);
}

/// What handling `record` does, from `before` to `after`, with outcome `r`.
pub open spec fn record_effect(before: &Interpreter, record: Record, after: &Interpreter, r: Result<(), Error>) -> bool {
    match record {
        Record::Version(v) => r is Ok && after.same_state(before)
            && after.text() == before.text() + line2(
            TAG_VERSION,
            v as nat,
            FILE_VERSION as nat,
        ),
        Record::Exec(cmd) => r is Ok && after.same_state(before)
            && after.text() == before.text() + line_raw(TAG_EXEC, encode_utf8(cmd@)),
        Record::Image { name, start_address, size } => {
            &&& r is Ok
            &&& after.same_tables(before)
            &&& interned_text(before, after, name@)
            &&& after.lookups() == before.lookups()
            &&& forall|ip: u64|
                !(start_address as u64 <= ip < start_address as u64 + size as u64)
                    ==> #[trigger] after.covers(ip) == before.covers(ip)
            &&& registered(before, after, start_address as u64, size as u64, ref_of(after.strings(), name@))
        },
        Record::PageInfo { size, pages } => r is Ok && after.same_state(before)
            && after.text() == before.text() + line2(
            TAG_PAGE_INFO,
            size as nat,
            pages as nat,
        ),
        Record::Trace { ip, parent_idx } => {
            &&& after.signatures() == before.signatures()
            &&& after.live() == before.live()
            &&& after.counters() == before.counters()
            &&& after.last() == before.last()
            &&& before.ips().contains(ip as u64) ==> r is Ok && after.same_state(
                before,
            ) && after.text() == before.text() + line2(
                TAG_TRACE,
                (before.ips().index_of(ip as u64) + 1) as nat,
                parent_idx as nat,
            )
            &&& !before.ips().contains(ip as u64) ==> after.ips() == before.ips().push(ip as u64)
            &&& !before.ips().contains(ip as u64) && !before.lookups().contains_key(
                ip as u64,
            ) && !before.covers(ip as u64) ==> r == Err::<(), Error>(
                Error::LocationsNotFound,
            )
            &&& prefix_of(before.strings(), after.strings())
            &&& !before.ips().contains(ip as u64) ==> (r is Ok <==> after.lookups().contains_key(
                ip as u64,
            ))
            &&& r is Err ==> r == Err::<(), Error>(Error::LocationsNotFound) && after.text()
                == before.text() && after.strings() == before.strings()
            &&& !before.ips().contains(ip as u64) && r is Ok ==> after.text() == before.text()
                + string_lines(
                after.strings().subrange(
                    before.strings().len() as int,
                    after.strings().len() as int,
                ),
            ) + instruction_line(
                ip as nat,
                after.lookups()[ip as u64].0 as nat,
                frames_for(after.strings(), after.lookups()[ip as u64].1),
            ) + line2(TAG_TRACE, after.ips().len() as nat, parent_idx as nat)
        },
        Record::Alloc { ptr, size, parent_idx } => r is Ok && alloc_post(
            before,
            after,
            ptr,
            size as u64,
            parent_idx as u64,
        ),
        Record::Free { ptr } => r is Ok && free_post(before, after, ptr),
        Record::Duration(d) => r is Ok && after.same_state(before)
            && after.text() == before.text() + line1(TAG_DURATION, d as nat),
        Record::RSS(rss) => r is Ok && after.same_state(before)
            && after.text() == before.text() + line1(TAG_RSS, rss as nat),
    }
}

/// Interning `name` wrote its string line where it was new, and changed
/// nothing else but the resolver.
pub open spec fn interned_text(before: &Interpreter, after: &Interpreter, name: Seq<char>) -> bool {
    &&& before.strings().contains(name) ==> after.strings() == before.strings() && after.text()
        == before.text()
    &&& !before.strings().contains(name) ==> after.strings() == before.strings().push(name)
        && after.text() == before.text() + string_line(encode_utf8(name))
}

/// What an `Alloc` of `ptr` does: both counters go up by one, the signature
/// is interned (its line written where new), `ptr` becomes live with it, it
/// becomes the last pointer, and its `+` line is written.
pub open spec fn alloc_post(before: &Interpreter, after: &Interpreter, ptr: usize, size: u64, parent_idx: u64) -> bool {
    let sig = (size, parent_idx);
    let idx = if before.signatures().contains(sig) {
        before.signatures().index_of(sig)
    } else {
        before.signatures().len() as int
    };
    &&& after.counters() == (MemStats {
        allocations: (before.counters().allocations + 1) as u64,
        leaked_allocations: (before.counters().leaked_allocations + 1) as u64,
        tmp_allocations: before.counters().tmp_allocations,
    })
    &&& after.strings() == before.strings()
    &&& after.ips() == before.ips()
    &&& after.lookups() == before.lookups()
    &&& after.last() == ptr
    &&& after.signatures() == if before.signatures().contains(sig) {
        before.signatures()
    } else {
        before.signatures().push(sig)
    }
    &&& after.live() == before.live().insert(ptr as u64, idx as usize)
    &&& after.text() == before.text() + (if before.signatures().contains(sig) {
        Seq::<u8>::empty()
    } else {
        line2(TAG_TRACE_ALLOC, size as nat, parent_idx as nat)
    }) + line1(TAG_ALLOC, idx as nat)
}

/// What a `Free` of `ptr` does: the last pointer is cleared; a live `ptr` is
/// no longer live, its `-` line is written, one allocation fewer is leaked
/// and, where `ptr` was the last pointer, one more is temporary. An unknown
/// `ptr` changes nothing else.
pub open spec fn free_post(before: &Interpreter, after: &Interpreter, ptr: usize) -> bool {
    let p = ptr as u64;
    &&& after.last() == 0
    &&& after.strings() == before.strings()
    &&& after.ips() == before.ips()
    &&& after.signatures() == before.signatures()
    &&& after.lookups() == before.lookups()
    &&& !before.live().contains_key(p) ==> after.live() == before.live() && after.counters()
        == before.counters() && after.text() == before.text()
    &&& before.live().contains_key(p) ==> {
        &&& after.live() == before.live().remove(p)
        &&& after.text() == before.text() + line1(TAG_FREE, before.live()[p] as nat)
        &&& after.counters() == (MemStats {
            allocations: before.counters().allocations,
            leaked_allocations: (before.counters().leaked_allocations - 1) as u64,
            tmp_allocations: if before.last() == ptr {
                (before.counters().tmp_allocations + 1) as u64
            } else {
                before.counters().tmp_allocations
            },
        })
    }
}

/// Appending a value not held keeps a sequence free of duplicates.
pub proof fn lemma_push_distinct<T>(s: Seq<T>, v: T)
    requires
        s.no_duplicates(),
        !s.contains(v),
    ensures
        s.push(v).no_duplicates(),
{
    let t = s.push(v);
    assert forall|i: int, j: int| 0 <= i < t.len() && 0 <= j < t.len() && i != j implies t[i]
        != t[j] by {
        if i == s.len() as int {
            assert(s.contains(t[j]));
        } else if j == s.len() as int {
            assert(s.contains(t[i]));
        }
    }
}

/// `states[i + 1]` is what handling `records[i]` makes of `states[i]`, each
/// record handled without error.
pub open spec fn interpreter_run(states: Seq<Interpreter>, records: Seq<Record>) -> bool {
    &&& states.len() == records.len() + 1
    &&& forall|i: int|
        #![trigger records[i]]
        0 <= i < records.len() ==> record_effect(&states[i], records[i], &states[i + 1], Ok(()))
}

/// The pointer of the latest `Alloc` among the first `n` records, where no
/// `Free` (of any pointer) came after it.
pub open spec fn preceding_alloc(records: Seq<Record>, n: int) -> Option<usize>
    decreases n,
{
    if n <= 0 {
        None
    } else {
        match records[n - 1] {
            Record::Alloc { ptr, .. } => Some(ptr),
            Record::Free { .. } => None,
            _ => preceding_alloc(records, n - 1),
        }
    }
}

/// Whether `p` was allocated among the first `n` records and not freed
/// since.
pub open spec fn allocated_since(records: Seq<Record>, n: int, p: u64) -> bool
    decreases n,
{
    if n <= 0 {
        false
    } else {
        match records[n - 1] {
            Record::Alloc { ptr, .. } => ptr as u64 == p || allocated_since(records, n - 1, p),
            Record::Free { ptr } => ptr as u64 != p && allocated_since(records, n - 1, p),
            _ => allocated_since(records, n - 1, p),
        }
    }
}

/// The interned strings, instruction pointers and signatures are each
/// distinct, so each is written once.
pub proof fn lemma_tables_distinct(i: &Interpreter)
    requires
        i.wf(),
    ensures
        i.strings().no_duplicates(),
        i.ips().no_duplicates(),
        i.signatures().no_duplicates(),
        i.counters().tmp_allocations <= i.counters().allocations,
{
}

/// The counters bound each other: temporary and still-live allocations
/// together are at most all allocations, and each live pointer is counted
/// as leaked. So an `Alloc` below the counter's limit, and a `Free` of a live
/// pointer, change the counters by exactly one.
pub proof fn lemma_counters_bounded(i: &Interpreter)
    requires
        i.wf(),
    ensures
        i.counters().tmp_allocations + i.counters().leaked_allocations <= i.counters().allocations,
        i.live().dom().finite(),
        i.live().dom().len() <= i.counters().leaked_allocations,
        forall|p: u64| #[trigger] i.live().contains_key(p) ==> i.counters().leaked_allocations >= 1,
{
    assert forall|p: u64| #[trigger] i.live().contains_key(p) implies i.counters().leaked_allocations
        >= 1 by {
        if i.live().dom().len() == 0 {
            i.live().dom().lemma_len0_is_empty();
            assert(i.live().dom().contains(p));
        }
    }
}

/// Over a run, each state's interned strings, instruction pointers and
/// signatures begin those of every later state: a reference once handed out
/// keeps standing for the same value.
pub proof fn lemma_references_stable(states: Seq<Interpreter>, records: Seq<Record>, i: int, j: int)
    requires
        interpreter_run(states, records),
        0 <= i <= j <= records.len(),
    ensures
        prefix_of(states[i].strings(), states[j].strings()),
        prefix_of(states[i].ips(), states[j].ips()),
        prefix_of(states[i].signatures(), states[j].signatures()),
    decreases j - i,
{
    if i == j {
        assert(states[i].strings().subrange(0, states[i].strings().len() as int) =~= states[i].strings());
        assert(states[i].ips().subrange(0, states[i].ips().len() as int) =~= states[i].ips());
        assert(states[i].signatures().subrange(0, states[i].signatures().len() as int)
            =~= states[i].signatures());
    } else {
        lemma_references_stable(states, records, i, j - 1);
        let a = &states[j - 1];
        let b = &states[j];
        assert(record_effect(a, records[j - 1], b, Ok(())));
        assert(prefix_of(a.strings(), b.strings())) by {
            assert(a.strings().push(records[j - 1]->Image_name@).subrange(0, a.strings().len() as int)
                =~= a.strings());
            assert(a.strings().subrange(0, a.strings().len() as int) =~= a.strings());
        }
        assert(prefix_of(a.ips(), b.ips())) by {
            assert(a.ips().subrange(0, a.ips().len() as int) =~= a.ips());
            if records[j - 1] is Trace {
                assert(a.ips().push(records[j - 1]->Trace_ip as u64).subrange(0, a.ips().len() as int)
                    =~= a.ips());
            }
        }
        assert(prefix_of(a.signatures(), b.signatures())) by {
            assert(a.signatures().subrange(0, a.signatures().len() as int) =~= a.signatures());
            if records[j - 1] is Alloc {
                let sig = (records[j - 1]->Alloc_size as u64, records[j - 1]->Alloc_parent_idx as u64);
                assert(a.signatures().push(sig).subrange(0, a.signatures().len() as int) =~= a.signatures());
            }
        }
        lemma_prefix_trans(states[i].strings(), a.strings(), b.strings());
        lemma_prefix_trans(states[i].ips(), a.ips(), b.ips());
        lemma_prefix_trans(states[i].signatures(), a.signatures(), b.signatures());
    }
}

/// Each live pointer refers to an interned signature.
pub proof fn lemma_live_signatures(i: &Interpreter)
    requires
        i.wf(),
    ensures
        i.signatures().len() <= isize::MAX,
        forall|p: u64| #[trigger] i.live().contains_key(p) ==> i.live()[p] < i.signatures().len(),
{
}

proof fn lemma_run_last(states: Seq<Interpreter>, records: Seq<Record>, n: int)
    requires
        interpreter_run(states, records),
        states[0].last() == 0,
        0 <= n <= records.len(),
    ensures
        states[n].last() == match preceding_alloc(records, n) {
            Some(p) => p,
            None => 0,
        },
    decreases n,
{
    if n > 0 {
        lemma_run_last(states, records, n - 1);
        assert(record_effect(&states[n - 1], records[n - 1], &states[n], Ok(())));
    }
}

/// A `Free` of a live, non-null pointer is counted temporary exactly when the
/// latest `Alloc` or `Free` before it, of any pointer, is an `Alloc` of that
/// same pointer.
pub proof fn lemma_temporary_classification(
    states: Seq<Interpreter>,
    records: Seq<Record>,
    i: int,
    ptr: usize,
)
    requires
        interpreter_run(states, records),
        states[0].last() == 0,
        0 <= i < records.len(),
        records[i] == (Record::Free { ptr }),
        ptr != 0,
        states[i].wf(),
        states[i].live().contains_key(ptr as u64),
    ensures
        states[i + 1].counters().tmp_allocations == states[i].counters().tmp_allocations + 1
            <==> preceding_alloc(records, i) == Some(ptr),
{
    lemma_run_last(states, records, i);
    assert(record_effect(&states[i], records[i], &states[i + 1], Ok(())));
    if states[i].live().dom().len() == 0 {
        states[i].live().dom().lemma_len0_is_empty();
        assert(states[i].live().dom().contains(ptr as u64));
    }
}

/// From an empty table, the live pointers are exactly those allocated and
/// not freed since.
pub proof fn lemma_live_are_unfreed(states: Seq<Interpreter>, records: Seq<Record>, n: int, p: u64)
    requires
        interpreter_run(states, records),
        states[0].live() == Map::<u64, usize>::empty(),
        0 <= n <= records.len(),
    ensures
        states[n].live().contains_key(p) == allocated_since(records, n, p),
    decreases n,
{
    if n > 0 {
        lemma_live_are_unfreed(states, records, n - 1, p);
        assert(record_effect(&states[n - 1], records[n - 1], &states[n], Ok(())));
    }
}

} // verus!
