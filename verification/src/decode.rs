//! The decoder: the grammar of a trace line, the rules that suppress a frame,
//! and the pass over the lines that keeps the rest.

use vstd::prelude::*;
use crate::frame::DecodeError;
use crate::frame::DecodeFault;
use crate::frame::DecodedFrame;
use crate::frame::DecodedUserBacktrace;
use crate::frame::FrameView;
use crate::frame::TraceView;
use crate::frame::frame_views;
use crate::frame::outcome_view;
use crate::text::CharClass;
use crate::text::chars_of;
use crate::text::find_from;
use crate::text::find_text;
use crate::text::has_prefix_at;
use crate::text::lemma_find_from_bounds;
use crate::text::line_views;
use crate::text::lines_of;
use crate::text::piece;
use crate::text::run_end;
use crate::text::same_text;
use crate::text::scan_run;
use crate::text::split_lines;
use crate::text::string_of;

verus! {

/// Where the label of a symbol line ends: after its indent of spaces, one or
/// more digits, a colon and a space. `None` for a line without such a label.
pub open spec fn label_end(line: Seq<char>) -> Option<int> {
    let a = run_end(line, 0, CharClass::Space);
    let b = run_end(line, a, CharClass::Digit);
    if a < b && b + 2 <= line.len() && line[b] == ':' && line[b + 1] == ' ' {
        Some(b + 2)
    } else {
        None
    }
}

/// The digits of a symbol line's label.
pub open spec fn index_text(line: Seq<char>) -> Seq<char> {
    let a = run_end(line, 0, CharClass::Space);
    line.subrange(a, run_end(line, a, CharClass::Digit))
}

/// Whether `line` is a symbol line whose printed index is `1`.
pub open spec fn is_frame_one(line: Seq<char>) -> bool {
    label_end(line) is Some && index_text(line) == seq!['1']
}

/// What follows the label of a symbol line.
pub open spec fn descriptor(line: Seq<char>) -> Seq<char>
    recommends
        label_end(line) is Some,
{
    line.skip(label_end(line).unwrap())
}

/// Whether `line` is a location line: `at ` after an indent of spaces.
pub open spec fn is_location(line: Seq<char>) -> bool {
    "at "@.is_prefix_of(line.skip(run_end(line, 0, CharClass::Space)))
}

/// Whether a descriptor names a generated wrapper symbol.
pub open spec fn is_wrapper(desc: Seq<char>) -> bool {
    "__"@.is_prefix_of(desc)
}

/// Whether a descriptor names one of the frames at the base of a thread's stack.
pub open spec fn is_thread_entry(desc: Seq<char>) -> bool {
    "start_thread"@.is_prefix_of(desc) || "clone"@.is_prefix_of(desc)
}

/// Whether a descriptor has the form `<Type as Trait>..`.
pub open spec fn is_generic(desc: Seq<char>) -> bool {
    desc.len() > 0 && desc[0] == '<'
}

/// The origin of a path: what stands before its first colon, where its first
/// path separator starts. `None` for a text without a colon.
pub open spec fn origin(path: Seq<char>) -> Option<Seq<char>> {
    let c = run_end(path, 0, CharClass::NotColon);
    if c < path.len() {
        Some(path.take(c))
    } else {
        None
    }
}

/// The type side of a generic descriptor: what stands between `<` and the
/// first ` as `. `None` where there is no ` as `.
pub open spec fn type_side(desc: Seq<char>) -> Option<Seq<char>> {
    let body = desc.skip(1);
    let p = find_from(body, " as "@, 0);
    if p < body.len() {
        Some(body.take(p))
    } else {
        None
    }
}

/// The trait side of a generic descriptor: what follows the first ` as `.
pub open spec fn trait_side(desc: Seq<char>) -> Option<Seq<char>> {
    let body = desc.skip(1);
    let p = find_from(body, " as "@, 0);
    if p < body.len() {
        Some(body.skip(p + " as "@.len()))
    } else {
        None
    }
}

/// Whether the origin rule suppresses a descriptor: `Ok(true)` when it does,
/// `Ok(false)` when it does not, and the fault for a malformed descriptor.
/// A generic descriptor is suppressed only if both its origins are listed.
pub open spec fn origin_hidden(desc: Seq<char>, deny: Set<Seq<char>>) -> Result<
    bool,
    DecodeFault,
> {
    if is_generic(desc) {
        if type_side(desc) is None {
            Err(DecodeFault::MissingAs(desc))
        } else {
            let left = origin(type_side(desc).unwrap());
            let right = origin(trait_side(desc).unwrap());
            if left is Some && right is Some {
                Ok(deny.contains(left.unwrap()) && deny.contains(right.unwrap()))
            } else {
                Err(DecodeFault::MissingPathSeparator(desc))
            }
        }
    } else {
        match origin(desc) {
            Some(o) => Ok(deny.contains(o)),
            None => Err(DecodeFault::MissingPathSeparator(desc)),
        }
    }
}

/// Whether the line after position `i` is the location line of the frame at `i`.
pub open spec fn has_location(lines: Seq<Seq<char>>, i: int) -> bool {
    i + 1 < lines.len() && is_location(lines[i + 1])
}

/// The frame that the symbol line at `i` gives, with its location line if it has one.
pub open spec fn frame_at(lines: Seq<Seq<char>>, i: int) -> FrameView {
    FrameView {
        symbol: descriptor(lines[i]),
        location: if has_location(lines, i) {
            Some(lines[i + 1])
        } else {
            None
        },
    }
}

/// The position of the symbol line that follows the frame at `i`.
pub open spec fn after_frame(lines: Seq<Seq<char>>, i: int) -> int {
    if has_location(lines, i) {
        i + 2
    } else {
        i + 1
    }
}

/// `front` followed by the frames of `rest`, or the fault of `rest`.
pub open spec fn prepend(front: Seq<FrameView>, rest: Result<Seq<FrameView>, DecodeFault>) -> Result<
    Seq<FrameView>,
    DecodeFault,
> {
    match rest {
        Ok(fs) => Ok(front + fs),
        Err(e) => Err(e),
    }
}

/// The frames retained from the symbol line at `i` on, or the first fault.
/// A wrapper symbol is dropped before its location line is looked for; a
/// thread-entry frame and a frame of listed origin are dropped with theirs.
pub open spec fn retained_from(lines: Seq<Seq<char>>, i: int, deny: Set<Seq<char>>) -> Result<
    Seq<FrameView>,
    DecodeFault,
>
    decreases lines.len() - i,
{
    if i < 0 || i >= lines.len() {
        Ok(Seq::empty())
    } else if label_end(lines[i]) is None {
        Err(DecodeFault::MissingLabel(lines[i]))
    } else if is_wrapper(descriptor(lines[i])) {
        retained_from(lines, i + 1, deny)
    } else if is_thread_entry(descriptor(lines[i])) {
        retained_from(lines, after_frame(lines, i), deny)
    } else {
        match origin_hidden(descriptor(lines[i]), deny) {
            Err(e) => Err(e),
            Ok(true) => retained_from(lines, after_frame(lines, i), deny),
            Ok(false) => prepend(
                seq![frame_at(lines, i)],
                retained_from(lines, after_frame(lines, i), deny),
            ),
        }
    }
}

/// The position of the first symbol line at or after `from` whose printed
/// index is `1`, or the number of lines when there is none.
pub open spec fn frame_one_from(lines: Seq<Seq<char>>, from: int) -> int
    decreases lines.len() - from,
{
    if from < 0 || from >= lines.len() {
        lines.len() as int
    } else if is_frame_one(lines[from]) {
        from
    } else {
        frame_one_from(lines, from + 1)
    }
}

/// Whether the lines say that no trace was captured: there is no line at all,
/// or the first one is the sentinel.
pub open spec fn is_disabled(lines: Seq<Seq<char>>) -> bool {
    lines.len() == 0 || lines[0] == "disabled backtrace"@
}

/// What decoding the lines of a trace gives.
pub open spec fn decode_lines_spec(lines: Seq<Seq<char>>, deny: Set<Seq<char>>) -> Result<
    TraceView,
    DecodeFault,
> {
    if is_disabled(lines) {
        Ok(TraceView::Disabled)
    } else {
        match retained_from(lines, frame_one_from(lines, 0), deny) {
            Ok(fs) => Ok(TraceView::Frames(fs)),
            Err(e) => Err(e),
        }
    }
}

/// The texts of a list of names.
pub open spec fn name_texts(names: Seq<&str>) -> Seq<Seq<char>> {
    Seq::new(names.len(), |i: int| names[i]@)
}

/// What decoding a trace gives, with the names of `hide_packages` as denylist.
pub open spec fn decode_spec(raw: Seq<char>, hide_packages: Seq<&str>) -> Result<
    TraceView,
    DecodeFault,
> {
    decode_lines_spec(lines_of(raw), name_texts(hide_packages).to_set())
}

/// Finds the end of the label of a symbol line.
pub fn label_of(line: &Vec<char>) -> (r: Option<usize>)
    ensures
        match r {
            Some(e) => label_end(line@) == Some(e as int) && e <= line.len(),
            None => label_end(line@) is None,
        },
{
    let a = scan_run(line, 0, CharClass::Space);
    let b = scan_run(line, a, CharClass::Digit);
    if a < b && line.len() - b >= 2 && line[b] == ':' && line[b + 1] == ' ' {
        Some(b + 2)
    } else {
        None
    }
}

/// Tells whether `line` is the symbol line of frame `1`.
pub fn starts_frame_one(line: &Vec<char>) -> (r: bool)
    ensures
        r == is_frame_one(line@),
{
    let a = scan_run(line, 0, CharClass::Space);
    let b = scan_run(line, a, CharClass::Digit);
    let labelled = a < b && line.len() - b >= 2 && line[b] == ':' && line[b + 1] == ' ';
    if labelled && b - a == 1 && line[a] == '1' {
        proof {
            assert(line@.subrange(a as int, b as int) =~= seq!['1']);
        }
        true
    } else {
        proof {
            if labelled {
                let t = line@.subrange(a as int, b as int);
                if t == seq!['1'] {
                    assert(t.len() == 1);
                    assert(t[0] == '1');
                }
            }
        }
        false
    }
}

/// Tells whether `line` is a location line.
pub fn starts_location(line: &Vec<char>) -> (r: bool)
    ensures
        r == is_location(line@),
{
    let a = scan_run(line, 0, CharClass::Space);
    let at = chars_of("at ");
    has_prefix_at(line, a, &at)
}

/// Tells whether `name` is one of `deny`.
pub fn listed(deny: &Vec<Vec<char>>, name: &Vec<char>) -> (r: bool)
    ensures
        r == line_views(deny@).to_set().contains(name@),
{
    let mut i: usize = 0;
    while i < deny.len()
        invariant
            i <= deny.len(),
            forall|j: int| 0 <= j < i ==> line_views(deny@)[j] != name@,
        decreases deny.len() - i,
    {
        if same_text(&deny[i], name) {
            proof {
                assert(line_views(deny@)[i as int] == name@);
                assert(line_views(deny@).contains(name@));
            }
            return true;
        }
        i += 1;
    }
    proof {
        assert(!line_views(deny@).contains(name@));
    }
    false
}

/// Extracts the origin of the part of `text` from `from` to `to`.
pub fn origin_of(text: &Vec<char>, from: usize, to: usize) -> (r: Option<Vec<char>>)
    requires
        from <= to <= text.len(),
    ensures
        match r {
            Some(o) => origin(text@.subrange(from as int, to as int)) == Some(o@),
            None => origin(text@.subrange(from as int, to as int)) is None,
        },
{
    let part = piece(text, from, to);
    let c = scan_run(&part, 0, CharClass::NotColon);
    if c < part.len() {
        let o = piece(&part, 0, c);
        proof {
            assert(o@ =~= part@.take(c as int));
        }
        Some(o)
    } else {
        None
    }
}

/// Applies the origin rule to a descriptor.
pub fn check_origin(desc: &Vec<char>, deny: &Vec<Vec<char>>) -> (r: Result<bool, DecodeError>)
    ensures
        match r {
            Ok(b) => origin_hidden(desc@, line_views(deny@).to_set()) == Ok::<bool, DecodeFault>(b),
            Err(e) => origin_hidden(desc@, line_views(deny@).to_set()) == Err::<bool, DecodeFault>(e@),
        },
{
    let n = desc.len();
    if n > 0 && desc[0] == '<' {
        let body = piece(desc, 1, n);
        let sep = chars_of(" as ");
        let p = find_text(&body, &sep, 0);
        proof {
            assert(body@ =~= desc@.skip(1));
            lemma_find_from_bounds(body@, sep@, 0);
        }
        if p >= body.len() {
            return Err(DecodeError::MissingAs(string_of(desc)));
        }
        proof {
            assert(sep@.is_prefix_of(body@.skip(p as int)));
            assert(body@.subrange(0, p as int) =~= body@.take(p as int));
            assert(body@.subrange(p + sep.len(), body.len() as int) =~= body@.skip(p + sep.len()));
        }
        let left = origin_of(&body, 0, p);
        let right = origin_of(&body, p + sep.len(), body.len());
        match (left, right) {
            (Some(a), Some(b)) => Ok(listed(deny, &a) && listed(deny, &b)),
            _ => Err(DecodeError::MissingPathSeparator(string_of(desc))),
        }
    } else {
        proof {
            assert(desc@.subrange(0, n as int) =~= desc@);
        }
        match origin_of(desc, 0, n) {
            Some(o) => Ok(listed(deny, &o)),
            None => Err(DecodeError::MissingPathSeparator(string_of(desc))),
        }
    }
}

/// Finds the symbol line of frame `1`.
pub fn find_frame_one(lines: &Vec<Vec<char>>) -> (r: usize)
    ensures
        r == frame_one_from(line_views(lines@), 0),
        r <= lines.len(),
{
    let mut i: usize = 0;
    while i < lines.len()
        invariant
            i <= lines.len(),
            frame_one_from(line_views(lines@), 0) == frame_one_from(line_views(lines@), i as int),
        decreases lines.len() - i,
    {
        if starts_frame_one(&lines[i]) {
            return i;
        }
        i += 1;
    }
    i
}

/// Decodes the lines of a trace: `Disabled` for no line at all or for the
/// sentinel as first line; else the frames retained from frame `1` on, or the
/// first fault in them.
pub fn decode_lines(lines: &Vec<Vec<char>>, deny: &Vec<Vec<char>>) -> (r: Result<
    DecodedUserBacktrace,
    DecodeError,
>)
    ensures
        outcome_view(r) == decode_lines_spec(line_views(lines@), line_views(deny@).to_set()),
{
    let ghost ls = line_views(lines@);
    let ghost dn = line_views(deny@).to_set();
    let sentinel = chars_of("disabled backtrace");
    if lines.len() == 0 || same_text(&lines[0], &sentinel) {
        return Ok(DecodedUserBacktrace::Disabled);
    }
    let wrapper_mark = chars_of("__");
    let thread_mark = chars_of("start_thread");
    let clone_mark = chars_of("clone");
    let start = find_frame_one(lines);
    let mut frames: Vec<DecodedFrame> = Vec::new();
    let mut i: usize = start;
    while i < lines.len()
        invariant
            i <= lines.len(),
            ls == line_views(lines@),
            dn == line_views(deny@).to_set(),
            !is_disabled(ls),
            start == frame_one_from(ls, 0),
            wrapper_mark@ == "__"@,
            thread_mark@ == "start_thread"@,
            clone_mark@ == "clone"@,
            retained_from(ls, start as int, dn) == prepend(
                frame_views(frames@),
                retained_from(ls, i as int, dn),
            ),
        decreases lines.len() - i,
    {
        let line = &lines[i];
        let end = match label_of(line) {
            Some(e) => e,
            None => {
                return Err(DecodeError::MissingLabel(string_of(line)));
            },
        };
        let desc = piece(line, end, line.len());
        proof {
            assert(desc@ =~= descriptor(ls[i as int]));
        }
        if has_prefix_at(&desc, 0, &wrapper_mark) {
            i += 1;
        } else {
            let located = i + 1 < lines.len() && starts_location(&lines[i + 1]);
            let next = if located {
                i + 2
            } else {
                i + 1
            };
            if has_prefix_at(&desc, 0, &thread_mark) || has_prefix_at(&desc, 0, &clone_mark) {
                i = next;
            } else {
                match check_origin(&desc, deny) {
                    Err(e) => {
                        return Err(e);
                    },
                    Ok(true) => {
                        i = next;
                    },
                    Ok(false) => {
                        let location = if located {
                            Some(string_of(&lines[i + 1]))
                        } else {
                            None
                        };
                        let frame = DecodedFrame { frame: string_of(&desc), location };
                        let ghost before = frame_views(frames@);
                        frames.push(frame);
                        proof {
                            assert(frame@ == frame_at(ls, i as int));
                            assert(frame_views(frames@) =~= before.push(frame@));
                            match retained_from(ls, next as int, dn) {
                                Ok(fs) => {
                                    assert(before + (seq![frame@] + fs) =~= before.push(frame@)
                                        + fs);
                                },
                                Err(_) => {},
                            }
                        }
                        i = next;
                    },
                }
            }
        }
    }
    Ok(DecodedUserBacktrace::Frames(frames))
}

/// Decodes a rendered trace.
///
/// A trace without lines, or whose first line is `disabled backtrace`, gives
/// `Disabled`. Else everything before the symbol line of index `1` is skipped,
/// and each symbol line from there on gives a frame, with the location line
/// after it if there is one, unless its descriptor starts with `__`, with
/// `start_thread` or with `clone`, or its origin is one of `hide_packages` (for
/// a `<Type as Trait>` descriptor: both origins are). A line where a symbol
/// line is due and that has no label, a `<` descriptor without ` as `, and a
/// descriptor or side without a path separator fail the decoding.
pub fn decode_backtrace(raw: &str, hide_packages: &[&str]) -> (r: Result<
    DecodedUserBacktrace,
    DecodeError,
>)
    ensures
        outcome_view(r) == decode_spec(raw@, hide_packages@),
        is_disabled(lines_of(raw@)) <==> outcome_view(r) == Ok::<TraceView, DecodeFault>(
            TraceView::Disabled,
        ),
        raw@.len() == 0 ==> outcome_view(r) == Ok::<TraceView, DecodeFault>(TraceView::Disabled),
{
    proof {
        if raw@.len() == 0 {
            assert(lines_of(raw@) =~= Seq::<Seq<char>>::empty());
        }
    }
    let chars = chars_of(raw);
    let lines = split_lines(&chars);
    let mut deny: Vec<Vec<char>> = Vec::new();
    let mut i: usize = 0;
    while i < hide_packages.len()
        invariant
            i <= hide_packages.len(),
            line_views(deny@) == name_texts(hide_packages@).take(i as int),
        decreases hide_packages.len() - i,
    {
        let ghost before = line_views(deny@);
        let name = chars_of(hide_packages[i]);
        deny.push(name);
        proof {
            assert(line_views(deny@) =~= before.push(hide_packages@[i as int]@));
            assert(line_views(deny@) =~= name_texts(hide_packages@).take(i + 1));
        }
        i += 1;
    }
    proof {
        assert(name_texts(hide_packages@).take(hide_packages.len() as int) =~= name_texts(
            hide_packages@,
        ));
    }
    decode_lines(&lines, &deny)
}

} // verus!
