//! Per-worker output buffering with terminal colors.
//!
//! A worker collects one revision's output in an [`OutputBuffer`] and the
//! driver flushes it to stdout in a single write, so output from different
//! workers never interleaves inside a revision block.  Color transitions are
//! explicit ANSI escape sequences, or nothing at all when colors are off:
//! setting a foreground color writes a reset followed by the color code, and
//! returning to plain writes the reset alone.

use vstd::prelude::*;

verus! {

/// A foreground color used in match output: cyan for titles, yellow for
/// revision ids, red for matched text.
#[derive(Clone, Copy, PartialEq, Eq, Structural, Debug)]
pub enum Color {
    Cyan,
    Yellow,
    Red,
}

/// The ASCII digit selecting `c` in an ANSI foreground color sequence.
pub open spec fn spec_color_digit(c: Color) -> u8 {
    match c {
        Color::Cyan => 54u8,  // '6'
        Color::Yellow => 51u8,  // '3'
        Color::Red => 49u8,  // '1'
    }
}

/// The ANSI reset sequence `ESC [ 0 m`.
pub open spec fn esc_reset() -> Seq<u8> {
    seq![27u8, 91u8, 48u8, 109u8]
}

/// The bytes written to switch the foreground to `c`: a reset followed by
/// `ESC [ 3 <digit> m`, or nothing when colors are off.
pub open spec fn esc_set_color(c: Color, use_color: bool) -> Seq<u8> {
    if use_color {
        esc_reset() + seq![27u8, 91u8, 51u8, spec_color_digit(c), 109u8]
    } else {
        Seq::empty()
    }
}

/// The bytes written to return to the plain foreground: a reset, or nothing
/// when colors are off.
pub open spec fn esc_plain(use_color: bool) -> Seq<u8> {
    if use_color {
        esc_reset()
    } else {
        Seq::empty()
    }
}

/// A growable octet buffer owned by one worker, plus the buffer's color mode.
pub struct OutputBuffer {
    pub bytes: Vec<u8>,
    pub use_color: bool,
}

impl OutputBuffer {
    /// An empty buffer; `use_color` decides whether color transitions write
    /// ANSI sequences or nothing.
    pub fn new(use_color: bool) -> (r: OutputBuffer)
        ensures
            r.bytes@ =~= Seq::<u8>::empty(),
            r.use_color == use_color,
    {
        OutputBuffer { bytes: Vec::new(), use_color }
    }

    /// Switches the foreground color to `c`.
    pub fn set_color(&mut self, c: Color)
        ensures
            final(self).bytes@ =~= old(self).bytes@ + esc_set_color(c, old(self).use_color),
            final(self).use_color == old(self).use_color,
    {
        if self.use_color {
            self.bytes.push(27);
            self.bytes.push(91);
            self.bytes.push(48);
            self.bytes.push(109);
            self.bytes.push(27);
            self.bytes.push(91);
            self.bytes.push(51);
            let digit: u8 = match c {
                Color::Cyan => 54,
                Color::Yellow => 51,
                Color::Red => 49,
            };
            self.bytes.push(digit);
            self.bytes.push(109);
        }
    }

    /// Returns the foreground to plain.
    pub fn set_plain(&mut self)
        ensures
            final(self).bytes@ =~= old(self).bytes@ + esc_plain(old(self).use_color),
            final(self).use_color == old(self).use_color,
    {
        if self.use_color {
            self.bytes.push(27);
            self.bytes.push(91);
            self.bytes.push(48);
            self.bytes.push(109);
        }
    }

    /// Appends one byte.
    pub fn write_byte(&mut self, b: u8)
        ensures
            final(self).bytes@ =~= old(self).bytes@ + seq![b],
            final(self).use_color == old(self).use_color,
    {
        self.bytes.push(b);
    }

    /// Appends a newline.
    pub fn newline(&mut self)
        ensures
            final(self).bytes@ =~= old(self).bytes@ + seq![10u8],
            final(self).use_color == old(self).use_color,
    {
        self.bytes.push(10);
    }

    /// Appends all of `data`.
    pub fn write_all(&mut self, data: &Vec<u8>)
        ensures
            final(self).bytes@ =~= old(self).bytes@ + data@,
            final(self).use_color == old(self).use_color,
    {
        self.bytes.extend_from_slice(data.as_slice());
    }

    /// Appends the bytes `data[from..to]`.
    pub fn write_range(&mut self, data: &Vec<u8>, from: usize, to: usize)
        requires
            from <= to <= data@.len(),
        ensures
            final(self).bytes@ =~= old(self).bytes@ + data@.subrange(from as int, to as int),
            final(self).use_color == old(self).use_color,
    {
        let part = vstd::slice::slice_subrange(data.as_slice(), from, to);
        self.bytes.extend_from_slice(part);
    }

    /// Discards the contents, keeping the color mode; called after the driver
    /// has flushed one revision's output.
    pub fn clear(&mut self)
        ensures
            final(self).bytes@ =~= Seq::<u8>::empty(),
            final(self).use_color == old(self).use_color,
    {
        self.bytes.clear();
    }

    /// How many bytes are buffered.
    pub fn len(&self) -> (r: usize)
        ensures
            r == self.bytes@.len(),
    {
        self.bytes.len()
    }
}

} // verus!
