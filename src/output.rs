//! The textual trace: one record per line, integers in lowercase hexadecimal.
use vstd::prelude::*;
use vstd::string::StringSliceAdditionalSpecFns;

verus! {

/// One source-level frame of an instruction, by string-table references.
#[derive(Clone, Copy, Debug, PartialEq, Eq, Structural)]
pub enum Frame {
    Single { function_idx: usize },
    Multiple { function_idx: usize, file_idx: usize, line_number: u32 },
}

pub const SPACE: u8 = 0x20;

pub const NEWLINE: u8 = 0x0a;

/// The character of one hexadecimal digit.
pub open spec fn hex_digit(d: nat) -> u8 {
    if d < 10 {
        (0x30 + d) as u8
    } else {
        (0x57 + d) as u8
    }
}

/// `n` in lowercase hexadecimal, without prefix or leading zeros.
pub open spec fn hex(n: nat) -> Seq<u8>
    decreases n,
{
    if n < 16 {
        seq![hex_digit(n)]
    } else {
        hex(n / 16).push(hex_digit(n % 16))
    }
}

/// `n` in decimal, without leading zeros.
pub open spec fn dec(n: nat) -> Seq<u8>
    decreases n,
{
    if n < 10 {
        seq![(0x30 + n) as u8]
    } else {
        dec(n / 10).push((0x30 + n % 10) as u8)
    }
}

/// A line of a tag and one number.
pub open spec fn line1(tag: u8, a: nat) -> Seq<u8> {
    seq![tag, SPACE] + hex(a) + seq![NEWLINE]
}

/// A line of a tag and two numbers.
pub open spec fn line2(tag: u8, a: nat, b: nat) -> Seq<u8> {
    seq![tag, SPACE] + hex(a) + seq![SPACE] + hex(b) + seq![NEWLINE]
}

/// A line of a tag and raw text.
pub open spec fn line_raw(tag: u8, text: Seq<u8>) -> Seq<u8> {
    seq![tag, SPACE] + text + seq![NEWLINE]
}

/// The string line: the byte length, then the bytes themselves.
pub open spec fn string_line(value: Seq<u8>) -> Seq<u8> {
    seq![0x73u8, SPACE] + hex(value.len()) + seq![SPACE] + value + seq![NEWLINE]
}

/// One frame of an instruction line, with its leading space.
pub open spec fn frame_text(f: Frame) -> Seq<u8> {
    match f {
        Frame::Single { function_idx } => seq![SPACE] + hex(function_idx as nat),
        Frame::Multiple { function_idx, file_idx, line_number } => seq![SPACE] + hex(
            function_idx as nat,
        ) + seq![SPACE] + hex(file_idx as nat) + seq![SPACE] + hex(line_number as nat),
    }
}

/// The frames of an instruction line, in order.
pub open spec fn frames_text(fs: Seq<Frame>) -> Seq<u8>
    decreases fs.len(),
{
    if fs.len() == 0 {
        Seq::empty()
    } else {
        frames_text(fs.drop_last()) + frame_text(fs.last())
    }
}

/// The instruction line of `ip` in module `module_idx`.
pub open spec fn instruction_line(ip: nat, module_idx: nat, fs: Seq<Frame>) -> Seq<u8> {
    seq![0x69u8, SPACE] + hex(ip) + seq![SPACE] + hex(module_idx) + frames_text(fs) + seq![NEWLINE]
}

pub const TAG_VERSION: u8 = 0x76;

pub const TAG_PAGE_INFO: u8 = 0x49;

pub const TAG_EXEC: u8 = 0x58;

pub const TAG_TRACE: u8 = 0x74;

pub const TAG_TRACE_ALLOC: u8 = 0x61;

pub const TAG_ALLOC: u8 = 0x2b;

pub const TAG_FREE: u8 = 0x2d;

pub const TAG_DURATION: u8 = 0x63;

pub const TAG_RSS: u8 = 0x52;

pub const TAG_COMMENT: u8 = 0x23;

/// Appends the digits of `n` in hexadecimal.
pub fn push_hex(buf: &mut Vec<u8>, n: u128)
    ensures
        final(buf)@ == old(buf)@ + hex(n as nat),
    decreases n,
{
    if n >= 16 {
        push_hex(buf, n / 16);
    }
    let d = (n % 16) as u8;
    if d < 10 {
        buf.push(0x30 + d);
    } else {
        buf.push(0x57 + d);
    }
    proof {
        if n >= 16 {
            assert(hex(n as nat) == hex((n / 16) as nat).push(hex_digit((n % 16) as nat)));
        }
    }
    assert(final(buf)@ =~= old(buf)@ + hex(n as nat));
}

/// Appends the digits of `n` in decimal.
pub fn push_dec(buf: &mut Vec<u8>, n: u64)
    ensures
        final(buf)@ == old(buf)@ + dec(n as nat),
    decreases n,
{
    if n >= 10 {
        push_dec(buf, n / 10);
    }
    buf.push(0x30 + (n % 10) as u8);
    assert(final(buf)@ =~= old(buf)@ + dec(n as nat));
}

/// Appends the bytes of `s`.
pub fn push_bytes(buf: &mut Vec<u8>, s: &[u8])
    ensures
        final(buf)@ == old(buf)@ + s@,
{
    let mut i: usize = 0;
    while i < s.len()
        invariant
            i <= s@.len(),
            buf@ == old(buf)@ + s@.subrange(0, i as int),
        decreases s@.len() - i,
    {
        buf.push(s[i]);
        i = i + 1;
        assert(s@.subrange(0, i as int) =~= s@.subrange(0, i - 1).push(s@[i - 1]));
    }
    assert(s@.subrange(0, i as int) =~= s@);
}

/// A buffer of trace lines not yet handed to the output file.
pub struct Output {
    buffer: Vec<u8>,
}

impl Output {
    /// The bytes written and not yet flushed.
    pub closed spec fn text(&self) -> Seq<u8> {
        self.buffer@
    }

    pub fn new() -> (r: Self)
        ensures
            r.text() == Seq::<u8>::empty(),
    {
        Output { buffer: Vec::new() }
    }

    fn write_line1(&mut self, tag: u8, a: u128)
        ensures
            final(self).text() == old(self).text() + line1(tag, a as nat),
    {
        self.buffer.push(tag);
        self.buffer.push(SPACE);
        push_hex(&mut self.buffer, a);
        self.buffer.push(NEWLINE);
        assert(self.text() =~= old(self).text() + line1(tag, a as nat));
    }

    fn write_line2(&mut self, tag: u8, a: u128, b: u128)
        ensures
            final(self).text() == old(self).text() + line2(tag, a as nat, b as nat),
    {
        self.buffer.push(tag);
        self.buffer.push(SPACE);
        push_hex(&mut self.buffer, a);
        self.buffer.push(SPACE);
        push_hex(&mut self.buffer, b);
        self.buffer.push(NEWLINE);
        assert(self.text() =~= old(self).text() + line2(tag, a as nat, b as nat));
    }

    fn write_raw(&mut self, tag: u8, text: &str)
        ensures
            final(self).text() == old(self).text() + line_raw(tag, text.spec_bytes()),
    {
        self.buffer.push(tag);
        self.buffer.push(SPACE);
        push_bytes(&mut self.buffer, text.as_bytes());
        self.buffer.push(NEWLINE);
        assert(self.text() =~= old(self).text() + line_raw(tag, text.spec_bytes()));
    }

    pub fn write_version(&mut self, version: u16, file_version: u16)
        ensures
            final(self).text() == old(self).text() + line2(
                TAG_VERSION,
                version as nat,
                file_version as nat,
            ),
    {
        self.write_line2(TAG_VERSION, version as u128, file_version as u128)
    }

    pub fn write_page_info(&mut self, page_size: u64, pages: u64)
        ensures
            final(self).text() == old(self).text() + line2(
                TAG_PAGE_INFO,
                page_size as nat,
                pages as nat,
            ),
    {
        self.write_line2(TAG_PAGE_INFO, page_size as u128, pages as u128)
    }

    pub fn write_exec(&mut self, command: &str)
        ensures
            final(self).text() == old(self).text() + line_raw(TAG_EXEC, command.spec_bytes()),
    {
        self.write_raw(TAG_EXEC, command)
    }

    pub fn write_string(&mut self, value: &str)
        ensures
            final(self).text() == old(self).text() + string_line(value.spec_bytes()),
    {
        let bytes = value.as_bytes();
        self.buffer.push(0x73);
        self.buffer.push(SPACE);
        push_hex(&mut self.buffer, bytes.len() as u128);
        self.buffer.push(SPACE);
        push_bytes(&mut self.buffer, bytes);
        self.buffer.push(NEWLINE);
        assert(self.text() =~= old(self).text() + string_line(value.spec_bytes()));
    }

    pub fn write_instruction(&mut self, ip: u64, module_idx: usize, frames: &[Frame])
        ensures
            final(self).text() == old(self).text() + instruction_line(
                ip as nat,
                module_idx as nat,
                frames@,
            ),
    {
        self.buffer.push(0x69);
        self.buffer.push(SPACE);
        push_hex(&mut self.buffer, ip as u128);
        self.buffer.push(SPACE);
        push_hex(&mut self.buffer, module_idx as u128);
        let ghost head = self.buffer@;
        let mut i: usize = 0;
        while i < frames.len()
            invariant
                i <= frames@.len(),
                self.buffer@ == head + frames_text(frames@.subrange(0, i as int)),
            decreases frames@.len() - i,
        {
            let ghost before = self.buffer@;
            match frames[i] {
                Frame::Single { function_idx } => {
                    self.buffer.push(SPACE);
                    push_hex(&mut self.buffer, function_idx as u128);
                },
                Frame::Multiple { function_idx, file_idx, line_number } => {
                    self.buffer.push(SPACE);
                    push_hex(&mut self.buffer, function_idx as u128);
                    self.buffer.push(SPACE);
                    push_hex(&mut self.buffer, file_idx as u128);
                    self.buffer.push(SPACE);
                    push_hex(&mut self.buffer, line_number as u128);
                },
            }
            assert(self.buffer@ =~= before + frame_text(frames@[i as int]));
            i = i + 1;
            assert(frames@.subrange(0, i as int).drop_last() =~= frames@.subrange(0, i - 1));
        }
        assert(frames@.subrange(0, i as int) =~= frames@);
        self.buffer.push(NEWLINE);
        assert(self.text() =~= old(self).text() + instruction_line(
            ip as nat,
            module_idx as nat,
            frames@,
        ));
    }

    pub fn write_trace(&mut self, ip_id: usize, parent_idx: u64)
        ensures
            final(self).text() == old(self).text() + line2(
                TAG_TRACE,
                ip_id as nat,
                parent_idx as nat,
            ),
    {
        self.write_line2(TAG_TRACE, ip_id as u128, parent_idx as u128)
    }

    pub fn write_trace_alloc(&mut self, size: u64, idx: u64)
        ensures
            final(self).text() == old(self).text() + line2(TAG_TRACE_ALLOC, size as nat, idx as nat),
    {
        self.write_line2(TAG_TRACE_ALLOC, size as u128, idx as u128)
    }

    pub fn write_alloc(&mut self, idx: usize)
        ensures
            final(self).text() == old(self).text() + line1(TAG_ALLOC, idx as nat),
    {
        self.write_line1(TAG_ALLOC, idx as u128)
    }

    pub fn write_free(&mut self, idx: usize)
        ensures
            final(self).text() == old(self).text() + line1(TAG_FREE, idx as nat),
    {
        self.write_line1(TAG_FREE, idx as u128)
    }

    pub fn write_duration(&mut self, duration: u128)
        ensures
            final(self).text() == old(self).text() + line1(TAG_DURATION, duration as nat),
    {
        self.write_line1(TAG_DURATION, duration)
    }

    pub fn write_rss(&mut self, rss: u64)
        ensures
            final(self).text() == old(self).text() + line1(TAG_RSS, rss as nat),
    {
        self.write_line1(TAG_RSS, rss as u128)
    }

    /// Writes `value` as a line of its own.
    pub fn write(&mut self, value: &str)
        ensures
            final(self).text() == old(self).text() + value.spec_bytes() + seq![NEWLINE],
    {
        push_bytes(&mut self.buffer, value.as_bytes());
        self.buffer.push(NEWLINE);
        assert(self.text() =~= old(self).text() + value.spec_bytes() + seq![NEWLINE]);
    }

    pub fn write_comment(&mut self, comment: &str)
        ensures
            final(self).text() == old(self).text() + line_raw(TAG_COMMENT, comment.spec_bytes()),
    {
        self.write_raw(TAG_COMMENT, comment)
    }

    /// Writes a comment line `# LABEL: N`, with `n` in decimal.
    pub fn write_count(&mut self, label: &str, n: u64)
        ensures
            final(self).text() == old(self).text() + seq![TAG_COMMENT, SPACE] + label.spec_bytes()
                + seq![0x3au8, SPACE] + dec(n as nat) + seq![NEWLINE],
    {
        self.buffer.push(TAG_COMMENT);
        self.buffer.push(SPACE);
        push_bytes(&mut self.buffer, label.as_bytes());
        self.buffer.push(0x3a);
        self.buffer.push(SPACE);
        push_dec(&mut self.buffer, n);
        self.buffer.push(NEWLINE);
        assert(self.text() =~= old(self).text() + seq![TAG_COMMENT, SPACE] + label.spec_bytes()
            + seq![0x3au8, SPACE] + dec(n as nat) + seq![NEWLINE]);
    }

    /// Hands out the buffered bytes and empties the buffer.
    pub fn flush(&mut self) -> (r: Vec<u8>)
        ensures
            r@ == old(self).text(),
            final(self).text() == Seq::<u8>::empty(),
    {
        let mut r = Vec::new();
        std::mem::swap(&mut r, &mut self.buffer);
        r
    }
}

} // verus!
