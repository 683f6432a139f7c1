//! What holds of every decoded trace.

use vstd::prelude::*;
use crate::decode::decode_lines_spec;
use crate::decode::descriptor;
use crate::decode::frame_at;
use crate::decode::frame_one_from;
use crate::decode::after_frame;
use crate::decode::is_disabled;
use crate::decode::is_frame_one;
use crate::decode::is_generic;
use crate::decode::is_location;
use crate::decode::is_thread_entry;
use crate::decode::is_wrapper;
use crate::decode::label_end;
use crate::decode::origin;
use crate::decode::origin_hidden;
use crate::decode::retained_from;
use crate::decode::trait_side;
use crate::decode::type_side;
use crate::frame::DecodeFault;
use crate::frame::FrameView;
use crate::frame::TraceView;
use crate::decode::decode_spec;
use crate::text::is_one_line;
use crate::text::lemma_first_line;
use crate::text::lemma_one_line;
use crate::text::lines_of;
use crate::text::strip_cr;

verus! {

/// Whether no rule suppresses a descriptor and it is well formed.
pub open spec fn kept(desc: Seq<char>, deny: Set<Seq<char>>) -> bool {
    &&& !is_wrapper(desc)
    &&& !is_thread_entry(desc)
    &&& origin_hidden(desc, deny) == Ok::<bool, DecodeFault>(false)
}

/// Whether a frame is one that decoding can give: its symbol is kept, and
/// its location, if it has one, is a location line.
pub open spec fn sound_frame(f: FrameView, deny: Set<Seq<char>>) -> bool {
    &&& kept(f.symbol, deny)
    &&& match f.location {
        Some(l) => is_location(l),
        None => true,
    }
}

/// Whether `f` is the frame of a symbol line at or after position `from`.
pub open spec fn comes_from(lines: Seq<Seq<char>>, from: int, f: FrameView) -> bool {
    exists|j: int|
        from <= j < lines.len() && label_end(lines[j]) is Some && #[trigger] frame_at(lines, j)
            == f
}

/// Every frame retained from position `i` on is sound and is the frame of a
/// symbol line at or after `i`.
pub proof fn lemma_retained_frames(lines: Seq<Seq<char>>, i: int, deny: Set<Seq<char>>)
    requires
        0 <= i,
    ensures
        match retained_from(lines, i, deny) {
            Ok(fs) => forall|k: int|
                0 <= k < fs.len() ==> sound_frame(#[trigger] fs[k], deny) && comes_from(
                    lines,
                    i,
                    fs[k],
                ),
            Err(_) => true,
        },
    decreases lines.len() - i,
{
    if i >= lines.len() || label_end(lines[i]) is None {
    } else {
        let desc = descriptor(lines[i]);
        let next = if is_wrapper(desc) {
            i + 1
        } else {
            after_frame(lines, i)
        };
        lemma_retained_frames(lines, next, deny);
        match retained_from(lines, next, deny) {
            Ok(rest) => {
                assert forall|k: int| 0 <= k < rest.len() implies comes_from(
                    lines,
                    i,
                    #[trigger] rest[k],
                ) by {
                    assert(comes_from(lines, next, rest[k]));
                    let j = choose|j: int|
                        next <= j < lines.len() && label_end(lines[j]) is Some
                            && #[trigger] frame_at(lines, j) == rest[k];
                    assert(frame_at(lines, j) == rest[k]);
                }
                if kept(desc, deny) {
                    let f = frame_at(lines, i);
                    let fs = seq![f] + rest;
                    assert(retained_from(lines, i, deny) == Ok::<Seq<FrameView>, DecodeFault>(fs));
                    assert(sound_frame(f, deny));
                    assert(comes_from(lines, i, f));
                    assert forall|k: int| 0 <= k < fs.len() implies sound_frame(
                        #[trigger] fs[k],
                        deny,
                    ) && comes_from(lines, i, fs[k]) by {
                        if k > 0 {
                            assert(fs[k] == rest[k - 1]);
                        }
                    }
                }
            },
            Err(_) => {},
        }
    }
}

/// Whether `pos` names, for each frame of `fs` in turn, the symbol line at or
/// after `from` that gave it, each one past the lines of the frame before.
pub open spec fn traces_back(
    lines: Seq<Seq<char>>,
    from: int,
    fs: Seq<FrameView>,
    pos: Seq<int>,
) -> bool {
    &&& pos.len() == fs.len()
    &&& forall|k: int|
        0 <= k < fs.len() ==> from <= #[trigger] pos[k] < lines.len() && label_end(lines[pos[k]])
            is Some && frame_at(lines, pos[k]) == fs[k]
    &&& forall|a: int, b: int|
        0 <= a < b < pos.len() ==> after_frame(lines, #[trigger] pos[a]) <= #[trigger] pos[b]
}

/// The retained frames keep the order of the trace: they are the frames of
/// symbol lines at rising positions, and a location line belongs to the symbol
/// line right before it and to no other frame.
pub proof fn lemma_retained_in_order(lines: Seq<Seq<char>>, i: int, deny: Set<Seq<char>>) -> (pos:
    Seq<int>)
    requires
        0 <= i,
        retained_from(lines, i, deny) is Ok,
    ensures
        traces_back(lines, i, retained_from(lines, i, deny)->Ok_0, pos),
    decreases lines.len() - i,
{
    if i >= lines.len() {
        Seq::empty()
    } else {
        let desc = descriptor(lines[i]);
        let next = if is_wrapper(desc) {
            i + 1
        } else {
            after_frame(lines, i)
        };
        let rest = lemma_retained_in_order(lines, next, deny);
        if kept(desc, deny) {
            let pos = seq![i] + rest;
            let fs = retained_from(lines, i, deny)->Ok_0;
            let fs1 = retained_from(lines, next, deny)->Ok_0;
            assert(fs == seq![frame_at(lines, i)] + fs1);
            assert forall|k: int| 0 <= k < fs.len() implies i <= #[trigger] pos[k] < lines.len()
                && label_end(lines[pos[k]]) is Some && frame_at(lines, pos[k]) == fs[k] by {
                if k > 0 {
                    assert(pos[k] == rest[k - 1]);
                    assert(fs[k] == fs1[k - 1]);
                }
            }
            assert forall|a: int, b: int| 0 <= a < b < pos.len() implies after_frame(
                lines,
                #[trigger] pos[a],
            ) <= #[trigger] pos[b] by {
                assert(pos[b] == rest[b - 1]);
                if a > 0 {
                    assert(pos[a] == rest[a - 1]);
                }
            }
            pos
        } else {
            rest
        }
    }
}

/// No frame of a decoded trace has a plain descriptor whose origin is listed.
pub proof fn lemma_listed_origin_is_suppressed(
    lines: Seq<Seq<char>>,
    deny: Set<Seq<char>>,
    fs: Seq<FrameView>,
)
    requires
        decode_lines_spec(lines, deny) == Ok::<TraceView, DecodeFault>(TraceView::Frames(fs)),
    ensures
        forall|k: int|
            0 <= k < fs.len() && !is_generic((#[trigger] fs[k]).symbol) ==> origin(fs[k].symbol)
                is Some && !deny.contains(origin(fs[k].symbol).unwrap()),
{
    lemma_frame_one_from(lines, 0);
    lemma_retained_frames(lines, frame_one_from(lines, 0), deny);
}

/// A generic descriptor with both origins is suppressed exactly when both
/// are listed: one unlisted side keeps it.
pub proof fn lemma_generic_rule(desc: Seq<char>, deny: Set<Seq<char>>)
    requires
        is_generic(desc),
        type_side(desc) is Some,
        origin(type_side(desc).unwrap()) is Some,
        origin(trait_side(desc).unwrap()) is Some,
    ensures
        origin_hidden(desc, deny) == Ok::<bool, DecodeFault>(
            deny.contains(origin(type_side(desc).unwrap()).unwrap()) && deny.contains(
                origin(trait_side(desc).unwrap()).unwrap(),
            ),
        ),
{
}

/// No frame of a decoded trace has a generic descriptor whose two origins
/// are both listed.
pub proof fn lemma_generic_both_listed_is_suppressed(
    lines: Seq<Seq<char>>,
    deny: Set<Seq<char>>,
    fs: Seq<FrameView>,
)
    requires
        decode_lines_spec(lines, deny) == Ok::<TraceView, DecodeFault>(TraceView::Frames(fs)),
    ensures
        forall|k: int|
            0 <= k < fs.len() && is_generic((#[trigger] fs[k]).symbol) ==> {
                &&& type_side(fs[k].symbol) is Some
                &&& origin(type_side(fs[k].symbol).unwrap()) is Some
                &&& origin(trait_side(fs[k].symbol).unwrap()) is Some
                &&& !(deny.contains(origin(type_side(fs[k].symbol).unwrap()).unwrap())
                    && deny.contains(origin(trait_side(fs[k].symbol).unwrap()).unwrap()))
            },
{
    lemma_frame_one_from(lines, 0);
    lemma_retained_frames(lines, frame_one_from(lines, 0), deny);
}

/// A symbol line that no rule suppresses gives the first of the frames
/// retained from its position on, unless a later line is malformed.
pub proof fn lemma_kept_line_is_retained(lines: Seq<Seq<char>>, i: int, deny: Set<Seq<char>>)
    requires
        0 <= i < lines.len(),
        label_end(lines[i]) is Some,
        kept(descriptor(lines[i]), deny),
    ensures
        match retained_from(lines, i, deny) {
            Ok(fs) => fs.len() > 0 && fs[0] == frame_at(lines, i),
            Err(e) => retained_from(lines, after_frame(lines, i), deny) == Err::<
                Seq<FrameView>,
                DecodeFault,
            >(e),
        },
{
}

/// The first line of printed index `1` is where the frames start: it is
/// such a line, no line before it is, and every frame of a decoded trace is the
/// frame of a symbol line at or after it. So frame `0`, which stands before it,
/// gives no frame.
pub proof fn lemma_frames_start_at_frame_one(
    lines: Seq<Seq<char>>,
    deny: Set<Seq<char>>,
    fs: Seq<FrameView>,
)
    requires
        decode_lines_spec(lines, deny) == Ok::<TraceView, DecodeFault>(TraceView::Frames(fs)),
    ensures
        0 <= frame_one_from(lines, 0) <= lines.len(),
        frame_one_from(lines, 0) < lines.len() ==> is_frame_one(lines[frame_one_from(lines, 0)]),
        forall|j: int| 0 <= j < frame_one_from(lines, 0) ==> !is_frame_one(#[trigger] lines[j]),
        forall|k: int|
            0 <= k < fs.len() ==> comes_from(lines, frame_one_from(lines, 0), #[trigger] fs[k]),
{
    lemma_frame_one_from(lines, 0);
    lemma_retained_frames(lines, frame_one_from(lines, 0), deny);
}

/// The search for frame `1` from `from` on ends at the first line of printed
/// index `1`, or at the end of the lines.
pub proof fn lemma_frame_one_from(lines: Seq<Seq<char>>, from: int)
    requires
        0 <= from <= lines.len(),
    ensures
        from <= frame_one_from(lines, from) <= lines.len(),
        frame_one_from(lines, from) < lines.len() ==> is_frame_one(
            lines[frame_one_from(lines, from)],
        ),
        forall|j: int| from <= j < frame_one_from(lines, from) ==> !is_frame_one(#[trigger] lines[j]),
    decreases lines.len() - from,
{
    if from < lines.len() && !is_frame_one(lines[from]) {
        lemma_frame_one_from(lines, from + 1);
    }
}

/// No frame of a decoded trace is a thread-entry frame or a generated wrapper.
pub proof fn lemma_thread_entry_is_suppressed(
    lines: Seq<Seq<char>>,
    deny: Set<Seq<char>>,
    fs: Seq<FrameView>,
)
    requires
        decode_lines_spec(lines, deny) == Ok::<TraceView, DecodeFault>(TraceView::Frames(fs)),
    ensures
        forall|k: int|
            0 <= k < fs.len() ==> {
                &&& !"start_thread"@.is_prefix_of((#[trigger] fs[k]).symbol)
                &&& !"clone"@.is_prefix_of(fs[k].symbol)
                &&& !"__"@.is_prefix_of(fs[k].symbol)
            },
{
    lemma_frame_one_from(lines, 0);
    lemma_retained_frames(lines, frame_one_from(lines, 0), deny);
}

/// A trace whose first line is the sentinel, or that has no line, decodes to
/// `Disabled`, whatever follows and whatever is listed; no other trace does.
pub proof fn lemma_disabled(lines: Seq<Seq<char>>, deny: Set<Seq<char>>)
    ensures
        lines.len() == 0 ==> decode_lines_spec(lines, deny) == Ok::<TraceView, DecodeFault>(
            TraceView::Disabled,
        ),
        lines.len() > 0 && lines[0] == "disabled backtrace"@ ==> decode_lines_spec(lines, deny)
            == Ok::<TraceView, DecodeFault>(TraceView::Disabled),
        decode_lines_spec(lines, deny) == Ok::<TraceView, DecodeFault>(TraceView::Disabled)
            ==> is_disabled(lines),
        lines_of(Seq::<char>::empty()).len() == 0,
{
    assert(lines_of(Seq::<char>::empty()) =~= Seq::<Seq<char>>::empty());
}

/// A trace that is the sentinel, or that starts with the sentinel and a line
/// ending, decodes to `Disabled`, whatever follows and whatever is listed; so
/// does the empty trace.
pub proof fn lemma_sentinel_first(rest: Seq<char>, hide_packages: Seq<&str>)
    ensures
        decode_spec(Seq::<char>::empty(), hide_packages) == Ok::<TraceView, DecodeFault>(
            TraceView::Disabled,
        ),
        decode_spec("disabled backtrace"@, hide_packages) == Ok::<TraceView, DecodeFault>(
            TraceView::Disabled,
        ),
        decode_spec("disabled backtrace"@.push('\n') + rest, hide_packages) == Ok::<
            TraceView,
            DecodeFault,
        >(TraceView::Disabled),
        decode_spec("disabled backtrace"@.push('\r').push('\n') + rest, hide_packages) == Ok::<
            TraceView,
            DecodeFault,
        >(TraceView::Disabled),
{
    reveal_strlit("disabled backtrace");
    let sentinel = "disabled backtrace"@;
    assert(lines_of(Seq::<char>::empty()) =~= Seq::<Seq<char>>::empty());
    assert(is_one_line(sentinel));
    lemma_one_line(sentinel);
    lemma_first_line(sentinel, rest);
    let with_cr = sentinel.push('\r');
    assert(is_one_line(with_cr));
    assert(strip_cr(with_cr) =~= sentinel);
    lemma_first_line(with_cr, rest);
}

} // verus!
