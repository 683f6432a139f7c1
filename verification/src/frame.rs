//! The decoded trace, its frames, the ways decoding can fail, and the text
//! that a decoded trace is shown as.

use vstd::prelude::*;
use vstd::string::StringExecFns;

verus! {

/// One retained stack entry.
#[derive(Debug, PartialEq, Eq)]
pub struct DecodedFrame {
    /// The symbol descriptor, as the trace gave it, without the frame's label.
    pub frame: String,
    /// The `at <file>:<line>` line that followed the symbol line, if one did.
    pub location: Option<String>,
}

/// What a [`DecodedFrame`] stands for.
pub ghost struct FrameView {
    pub symbol: Seq<char>,
    pub location: Option<Seq<char>>,
}

impl View for DecodedFrame {
    type V = FrameView;

    open spec fn view(&self) -> FrameView {
        FrameView {
            symbol: self.frame@,
            location: match self.location {
                Some(l) => Some(l@),
                None => None,
            },
        }
    }
}

/// Represents a best attempt at pulling out only user relevant information from a backtrace.
#[derive(Debug, PartialEq, Eq)]
pub enum DecodedUserBacktrace {
    /// The retained frames, innermost first.
    Frames(Vec<DecodedFrame>),
    /// The trace was not captured.
    Disabled,
}

/// What a [`DecodedUserBacktrace`] stands for.
pub ghost enum TraceView {
    Frames(Seq<FrameView>),
    Disabled,
}

/// The views of a sequence of frames.
pub open spec fn frame_views(frames: Seq<DecodedFrame>) -> Seq<FrameView> {
    Seq::new(frames.len(), |i: int| frames[i]@)
}

impl View for DecodedUserBacktrace {
    type V = TraceView;

    open spec fn view(&self) -> TraceView {
        match self {
            DecodedUserBacktrace::Frames(frames) => TraceView::Frames(frame_views(frames@)),
            DecodedUserBacktrace::Disabled => TraceView::Disabled,
        }
    }
}

/// A trace that does not follow the frame grammar. Each variant carries the
/// malformed fragment.
#[derive(Debug, PartialEq, Eq)]
pub enum DecodeError {
    /// A line where a frame was due does not start with an index and `: `.
    MissingLabel(String),
    /// A descriptor that starts with `<` holds no ` as `.
    MissingAs(String),
    /// A descriptor, or one side of a `<.. as ..>` descriptor, holds no path separator.
    MissingPathSeparator(String),
}

/// What a [`DecodeError`] stands for.
pub ghost enum DecodeFault {
    MissingLabel(Seq<char>),
    MissingAs(Seq<char>),
    MissingPathSeparator(Seq<char>),
}

impl View for DecodeError {
    type V = DecodeFault;

    open spec fn view(&self) -> DecodeFault {
        match self {
            DecodeError::MissingLabel(s) => DecodeFault::MissingLabel(s@),
            DecodeError::MissingAs(s) => DecodeFault::MissingAs(s@),
            DecodeError::MissingPathSeparator(s) => DecodeFault::MissingPathSeparator(s@),
        }
    }
}

impl DecodeError {
    /// The malformed fragment.
    pub fn fragment(&self) -> (s: &String)
        ensures
            s@ == fault_fragment(self@),
    {
        match self {
            DecodeError::MissingLabel(s) => s,
            DecodeError::MissingAs(s) => s,
            DecodeError::MissingPathSeparator(s) => s,
        }
    }
}

/// The fragment that a fault names.
pub open spec fn fault_fragment(f: DecodeFault) -> Seq<char> {
    match f {
        DecodeFault::MissingLabel(s) => s,
        DecodeFault::MissingAs(s) => s,
        DecodeFault::MissingPathSeparator(s) => s,
    }
}

/// The outcome of a decoding, as contracts speak of it.
pub open spec fn outcome_view(r: Result<DecodedUserBacktrace, DecodeError>) -> Result<
    TraceView,
    DecodeFault,
> {
    match r {
        Ok(t) => Ok(t@),
        Err(e) => Err(e@),
    }
}

/// The text of one frame: its symbol line, then its location line if it has one.
pub open spec fn frame_text(f: FrameView) -> Seq<char> {
    match f.location {
        Some(l) => f.symbol.push('\n') + l.push('\n'),
        None => f.symbol.push('\n'),
    }
}

/// The texts of the frames, one after the other.
pub open spec fn frames_text(fs: Seq<FrameView>) -> Seq<char>
    decreases fs.len(),
{
    if fs.len() == 0 {
        Seq::empty()
    } else {
        frames_text(fs.drop_last()) + frame_text(fs.last())
    }
}

/// The text that a decoded trace is shown as.
pub open spec fn trace_text(t: TraceView) -> Seq<char> {
    match t {
        TraceView::Frames(fs) => frames_text(fs),
        TraceView::Disabled => "disabled backtrace"@.push('\n'),
    }
}

impl DecodedUserBacktrace {
    /// The trace as text: each retained frame's symbol line, followed by its
    /// location line where it has one; a single line for a disabled trace.
    pub fn to_string(&self) -> (s: String)
        ensures
            s@ == trace_text(self@),
    {
        let mut s = String::new();
        match self {
            DecodedUserBacktrace::Frames(frames) => {
                let mut i: usize = 0;
                while i < frames.len()
                    invariant
                        i <= frames.len(),
                        s@ == frames_text(frame_views(frames@).take(i as int)),
                    decreases frames.len() - i,
                {
                    let ghost before = s@;
                    let f = &frames[i];
                    s.append(f.frame.as_str());
                    s.push('\n');
                    match &f.location {
                        Some(l) => {
                            s.append(l.as_str());
                            s.push('\n');
                        },
                        None => {},
                    }
                    proof {
                        let fs = frame_views(frames@);
                        assert(fs.take(i + 1).drop_last() =~= fs.take(i as int));
                        assert(fs.take(i + 1).last() == f@);
                        assert(s@ =~= before + frame_text(f@));
                    }
                    i += 1;
                }
                proof {
                    assert(frame_views(frames@).take(frames.len() as int) =~= frame_views(frames@));
                }
            },
            DecodedUserBacktrace::Disabled => {
                s.append("disabled backtrace");
                s.push('\n');
                proof {
                    assert(s@ =~= "disabled backtrace"@.push('\n'));
                }
            },
        }
        s
    }
}

} // verus!
