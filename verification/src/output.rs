//! The text form of a listing: what is written around the entries, in order.
use crate::config::{Config, Format};
use crate::error::LsError;
use crate::listing::{
    list_with_output, operand_times_fit, starts_listing, Operand, Plan, StreamMode,
};
use crate::meta::{IoFailure, Timestamp};
use crate::traverse::sane;
use vstd::prelude::*;

verus! {

/// Half of an average Gregorian year, in seconds.
pub const RECENT_SECONDS: i64 = 15_778_476;

/// Something to write, or to note for the positions that Emacs reads.
#[derive(Clone, Copy, Debug, PartialEq, Eq, Structural)]
pub enum Op {
    /// The two blanks before a line.
    Indent,
    /// The name of the directory, as it is shown.
    DirName,
    Newline,
    /// Note where the name of a directory of this length lies.
    NoteSubdirectory(usize),
    /// Count the line of such a name.
    CountDirName(usize),
    /// Count a blank line, and start over with the padding.
    CountBlankLine,
    /// The line with the total.
    Total,
    LineEnding,
    /// Count a line with the total, of this length.
    CountTotal(usize),
    /// The positions that were noted.
    Positions,
    /// The code that sets the style back to normal.
    ResetStyle,
}

/// The text output.
#[derive(Debug)]
pub struct TextOutput {
    /// From when on a time counts as recent.
    pub recent_from: Timestamp,
    /// Until when a time counts as recent.
    pub recent_to: Timestamp,
    /// How many bytes are set aside for a line.
    pub line_buffer: usize,
}

impl TextOutput {
    /// An output that starts now; `now` and `then_now` are two looks at the
    /// clock, one after the other.
    pub fn new(config: &Config, now: Timestamp, then_now: Timestamp) -> (r: TextOutput)
        requires
            i64::MIN + RECENT_SECONDS <= now.secs,
        ensures
            r.recent_from.total() == now.total() - RECENT_SECONDS * 1_000_000_000,
            r.recent_from.nanos == now.nanos,
            r.recent_to == then_now,
            r.line_buffer == (if config.format == Format::Long {
                128usize
            } else {
                0
            }),
    {
        let long = match config.format {
            Format::Long => true,
            _ => false,
        };
        TextOutput {
            recent_from: Timestamp { secs: now.secs - RECENT_SECONDS, nanos: now.nanos },
            recent_to: then_now,
            line_buffer: if long {
                128
            } else {
                0
            },
        }
    }
}

/// What the heading of a directory consists of. A blank line comes before it
/// unless it is the first thing in the output.
pub open spec fn heading(len: usize, dired: bool, is_first: bool) -> Seq<Op> {
    if is_first {
        if dired {
            seq![
                Op::Indent,
                Op::DirName,
                Op::Newline,
                Op::NoteSubdirectory(len),
                Op::CountDirName(len),
            ]
        } else {
            seq![Op::DirName, Op::Newline]
        }
    } else {
        if dired {
            seq![
                Op::Newline,
                Op::CountBlankLine,
                Op::Indent,
                Op::NoteSubdirectory(len),
                Op::CountDirName(len),
                Op::DirName,
                Op::Newline,
            ]
        } else {
            seq![Op::Newline, Op::DirName, Op::Newline]
        }
    }
}

/// What to write for the heading of a directory, whose path has `len` bytes.
pub fn write_dir_header(len: usize, config: &Config, is_first: bool) -> (r: Vec<Op>)
    ensures
        r@ == heading(len, config.dired, is_first),
{
    let mut ops: Vec<Op> = Vec::new();
    if is_first {
        if config.dired {
            ops.push(Op::Indent);
        }
        ops.push(Op::DirName);
        ops.push(Op::Newline);
        if config.dired {
            ops.push(Op::NoteSubdirectory(len));
            ops.push(Op::CountDirName(len));
        }
    } else {
        ops.push(Op::Newline);
        if config.dired {
            ops.push(Op::CountBlankLine);
            ops.push(Op::Indent);
            ops.push(Op::NoteSubdirectory(len));
            ops.push(Op::CountDirName(len));
        }
        ops.push(Op::DirName);
        ops.push(Op::Newline);
    }
    assert(ops@ =~= heading(len, config.dired, is_first));
    ops
}

/// What to write for a total, whose text has `len` bytes; it counts as one byte
/// longer.
pub fn write_total(len: usize, config: &Config) -> (r: Vec<Op>)
    requires
        len < usize::MAX,
    ensures
        r@ == (if config.dired {
            seq![Op::Indent, Op::Total, Op::LineEnding, Op::CountTotal((len + 1) as usize)]
        } else {
            seq![Op::Total, Op::LineEnding]
        }),
{
    let mut ops: Vec<Op> = Vec::new();
    if config.dired {
        ops.push(Op::Indent);
    }
    ops.push(Op::Total);
    ops.push(Op::LineEnding);
    if config.dired {
        ops.push(Op::CountTotal(len + 1));
        assert(ops@ =~= seq![
            Op::Indent,
            Op::Total,
            Op::LineEnding,
            Op::CountTotal((len + 1) as usize),
        ]);
    } else {
        assert(ops@ =~= seq![Op::Total, Op::LineEnding]);
    }
    ops
}

/// What to write before anything else; `normal_style` tells that there is a
/// style for text that is nothing special.
pub fn initialize(normal_style: bool) -> (r: Vec<Op>)
    ensures
        r@ == (if normal_style {
            seq![Op::ResetStyle]
        } else {
            Seq::empty()
        }),
{
    let mut ops: Vec<Op> = Vec::new();
    if normal_style {
        ops.push(Op::ResetStyle);
        assert(ops@ =~= seq![Op::ResetStyle]);
    }
    ops
}

/// What to write after everything else. Links spoil the positions, so these are
/// left out then.
pub fn finalize(config: &Config) -> (r: Vec<Op>)
    ensures
        r@ == (if config.dired && !config.hyperlink {
            seq![Op::Positions]
        } else {
            Seq::empty()
        }),
{
    let mut ops: Vec<Op> = Vec::new();
    if config.dired && !config.hyperlink {
        ops.push(Op::Positions);
        assert(ops@ =~= seq![Op::Positions]);
    }
    ops
}

/// What came of flushing the output: a failure is one to write.
pub fn flush(outcome: Result<(), IoFailure>) -> (r: Result<(), LsError>)
    ensures
        match outcome {
            Ok(_) => r is Ok,
            Err(f) => r matches Err(e) && e == LsError::WriteError(f),
        },
{
    match outcome {
        Ok(_) => Ok(()),
        Err(f) => Err(LsError::WriteError(f)),
    }
}

/// Starts a listing as text.
pub fn list(locs: Vec<Operand>, config: &Config, now: Timestamp, then_now: Timestamp) -> (r: (
    TextOutput,
    Plan,
))
    requires
        i64::MIN + RECENT_SECONDS <= now.secs,
        operand_times_fit(locs@, *config),
    ensures
        r.0.recent_from.total() == now.total() - RECENT_SECONDS * 1_000_000_000,
        r.0.recent_to == then_now,
        r.0.line_buffer == (if config.format == Format::Long {
            128usize
        } else {
            0
        }),
        starts_listing(r.1, locs@, *config, StreamMode::Batched),
        sane(r.1.listing@),
{
    let output = TextOutput::new(config, now, then_now);
    let plan = list_with_output(locs, config, StreamMode::Batched);
    (output, plan)
}

} // verus!
