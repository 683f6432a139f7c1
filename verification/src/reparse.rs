//! Decoding a trace that holds exactly the retained frames of an earlier
//! decoding gives those frames again.

use vstd::prelude::*;
use crate::decode::after_frame;
use crate::decode::decode_lines_spec;
use crate::decode::descriptor;
use crate::decode::frame_at;
use crate::decode::frame_one_from;
use crate::decode::has_location;
use crate::decode::index_text;
use crate::decode::is_frame_one;
use crate::decode::is_location;
use crate::decode::label_end;
use crate::decode::retained_from;
use crate::frame::DecodeFault;
use crate::frame::FrameView;
use crate::frame::TraceView;
use crate::frame::frame_text;
use crate::frame::frames_text;
use crate::lemmas::lemma_frame_one_from;
use crate::lemmas::lemma_retained_frames;
use crate::lemmas::sound_frame;
use crate::text::lemma_run_end_bounds;
use crate::text::run_end;
use crate::text::CharClass;

verus! {

/// Whether `l` is the label of a symbol line and nothing more: an indent of
/// spaces, one or more digits, a colon and a space.
pub open spec fn is_label(l: Seq<char>) -> bool {
    let a = run_end(l, 0, CharClass::Space);
    let b = run_end(l, a, CharClass::Digit);
    a < b && b + 2 == l.len() && l[b] == ':' && l[b + 1] == ' '
}

/// The lines that show one frame under a label: its symbol line, then its
/// location line if it has one.
pub open spec fn frame_lines(f: FrameView, label: Seq<char>) -> Seq<Seq<char>> {
    match f.location {
        Some(l) => seq![label + f.symbol, l],
        None => seq![label + f.symbol],
    }
}

/// The lines that show the frames `fs`, each under the label of its position.
pub open spec fn relabelled(fs: Seq<FrameView>, labels: Seq<Seq<char>>) -> Seq<Seq<char>>
    decreases fs.len(),
{
    if fs.len() == 0 || labels.len() == 0 {
        Seq::empty()
    } else {
        frame_lines(fs[0], labels[0]) + relabelled(fs.skip(1), labels.skip(1))
    }
}

/// A run that ends inside a text ends at the same place when more text follows.
pub proof fn lemma_run_end_concat(s: Seq<char>, t: Seq<char>, from: int, k: CharClass)
    requires
        0 <= from <= s.len(),
        run_end(s, from, k) < s.len(),
    ensures
        run_end(s + t, from, k) == run_end(s, from, k),
    decreases s.len() - from,
{
    if from < s.len() {
        assert((s + t)[from] == s[from]);
        if k.holds(s[from]) {
            lemma_run_end_concat(s, t, from + 1, k);
        }
    }
}

/// A label in front of a descriptor makes a symbol line with that label and
/// that descriptor.
pub proof fn lemma_labelled_line(l: Seq<char>, sym: Seq<char>)
    requires
        is_label(l),
    ensures
        label_end(l + sym) == Some(l.len() as int),
        descriptor(l + sym) == sym,
        index_text(l + sym) == index_text(l),
{
    let a = run_end(l, 0, CharClass::Space);
    lemma_run_end_bounds(l, 0, CharClass::Space);
    let b = run_end(l, a, CharClass::Digit);
    lemma_run_end_bounds(l, a, CharClass::Digit);
    lemma_run_end_concat(l, sym, 0, CharClass::Space);
    lemma_run_end_concat(l, sym, a, CharClass::Digit);
    assert((l + sym)[b] == l[b]);
    assert((l + sym)[b + 1] == l[b + 1]);
    assert((l + sym).skip(l.len() as int) =~= sym);
    assert((l + sym).subrange(a, b) =~= l.subrange(a, b));
}

/// A symbol line is no location line.
pub proof fn lemma_symbol_line_is_no_location(line: Seq<char>)
    requires
        label_end(line) is Some,
    ensures
        !is_location(line),
{
    reveal_strlit("at ");
    let a = run_end(line, 0, CharClass::Space);
    lemma_run_end_bounds(line, 0, CharClass::Space);
    lemma_run_end_bounds(line, a, CharClass::Digit);
    assert(CharClass::Digit.holds(line[a]));
    if is_location(line) {
        let rest = line.skip(a);
        assert(rest.subrange(0, 3)[0] == "at "@[0]);
        assert(line[a] == 'a');
    }
}

/// Lines in front of a trace do not change what is retained from a position
/// of the trace on.
pub proof fn lemma_retained_shift(
    pre: Seq<Seq<char>>,
    rest: Seq<Seq<char>>,
    i: int,
    deny: Set<Seq<char>>,
)
    requires
        0 <= i,
    ensures
        retained_from(pre + rest, pre.len() + i, deny) == retained_from(rest, i, deny),
    decreases rest.len() - i,
{
    let all = pre + rest;
    let n = pre.len() as int;
    if i < rest.len() {
        assert(all[n + i] == rest[i]);
        if i + 1 < rest.len() {
            assert(all[n + i + 1] == rest[i + 1]);
        }
        assert(has_location(all, n + i) == has_location(rest, i));
        assert(frame_at(all, n + i) == frame_at(rest, i));
        assert(after_frame(all, n + i) == n + after_frame(rest, i));
        lemma_retained_shift(pre, rest, i + 1, deny);
        if has_location(rest, i) {
            lemma_retained_shift(pre, rest, i + 2, deny);
        }
    }
}

/// The lines that show sound frames under labels decode to those frames.
pub proof fn lemma_relabelled_retained(
    fs: Seq<FrameView>,
    labels: Seq<Seq<char>>,
    deny: Set<Seq<char>>,
)
    requires
        labels.len() == fs.len(),
        forall|k: int| 0 <= k < fs.len() ==> is_label(#[trigger] labels[k]),
        forall|k: int| 0 <= k < fs.len() ==> sound_frame(#[trigger] fs[k], deny),
    ensures
        retained_from(relabelled(fs, labels), 0, deny) == Ok::<Seq<FrameView>, DecodeFault>(fs),
        fs.len() > 0 ==> relabelled(fs, labels).len() > 0 && relabelled(fs, labels)[0]
            == labels[0] + fs[0].symbol,
        fs.len() == 0 ==> relabelled(fs, labels).len() == 0,
    decreases fs.len(),
{
    if fs.len() == 0 {
        assert(fs =~= Seq::<FrameView>::empty());
    } else {
        let head = frame_lines(fs[0], labels[0]);
        let fs1 = fs.skip(1);
        let labels1 = labels.skip(1);
        let tail = relabelled(fs1, labels1);
        let all = head + tail;
        assert forall|k: int| 0 <= k < fs1.len() implies is_label(#[trigger] labels1[k]) by {
            assert(labels1[k] == labels[k + 1]);
        }
        assert forall|k: int| 0 <= k < fs1.len() implies sound_frame(#[trigger] fs1[k], deny) by {
            assert(fs1[k] == fs[k + 1]);
        }
        lemma_relabelled_retained(fs1, labels1, deny);
        lemma_labelled_line(labels[0], fs[0].symbol);
        assert(all[0] == labels[0] + fs[0].symbol);
        assert(sound_frame(fs[0], deny));
        match fs[0].location {
            Some(l) => {
                assert(all[1] == l);
                assert(has_location(all, 0));
            },
            None => {
                if tail.len() > 0 {
                    assert(all[1] == tail[0]);
                    lemma_labelled_line(labels1[0], fs1[0].symbol);
                    lemma_symbol_line_is_no_location(tail[0]);
                }
                assert(!has_location(all, 0));
            },
        }
        assert(frame_at(all, 0) == fs[0]);
        assert(after_frame(all, 0) == head.len());
        lemma_retained_shift(head, tail, 0, deny);
        assert(seq![fs[0]] + fs1 =~= fs);
    }
}

/// The lines, each with a line feed after it, one after the other.
pub open spec fn joined(lines: Seq<Seq<char>>) -> Seq<char>
    decreases lines.len(),
{
    if lines.len() == 0 {
        Seq::empty()
    } else {
        joined(lines.drop_last()) + lines.last().push('\n')
    }
}

/// As many empty labels as asked for.
pub open spec fn blank_labels(n: nat) -> Seq<Seq<char>> {
    Seq::new(n, |k: int| Seq::<char>::empty())
}

/// One line joined is the line and a line feed.
pub proof fn lemma_joined_one(line: Seq<char>)
    ensures
        joined(seq![line]) == line.push('\n'),
{
    let one = seq![line];
    assert(one.drop_last() =~= Seq::<Seq<char>>::empty());
    assert(joined(Seq::<Seq<char>>::empty()) =~= Seq::<char>::empty());
    assert(one.last() == line);
    assert(joined(one) =~= line.push('\n'));
}

/// Joining two runs of lines joins their texts.
pub proof fn lemma_joined_concat(a: Seq<Seq<char>>, b: Seq<Seq<char>>)
    ensures
        joined(a + b) == joined(a) + joined(b),
    decreases b.len(),
{
    if b.len() == 0 {
        assert(a + b =~= a);
        assert(joined(a) + joined(b) =~= joined(a));
    } else {
        assert((a + b).drop_last() =~= a + b.drop_last());
        lemma_joined_concat(a, b.drop_last());
        assert((a + b).last() == b.last());
        assert(joined(a + b) =~= joined(a) + joined(b));
    }
}

/// The text of a frame followed by others is its text, then theirs.
pub proof fn lemma_frames_text_front(f: FrameView, rest: Seq<FrameView>)
    ensures
        frames_text(seq![f] + rest) == frame_text(f) + frames_text(rest),
    decreases rest.len(),
{
    let all = seq![f] + rest;
    if rest.len() == 0 {
        assert(all.drop_last() =~= Seq::<FrameView>::empty());
        assert(rest =~= Seq::<FrameView>::empty());
        assert(frames_text(Seq::<FrameView>::empty()) =~= Seq::<char>::empty());
        assert(all.last() == f);
        assert(frames_text(all) =~= frame_text(f) + frames_text(rest));
    } else {
        assert(all.drop_last() =~= seq![f] + rest.drop_last());
        lemma_frames_text_front(f, rest.drop_last());
        assert(all.last() == rest.last());
        assert(frames_text(all) =~= frame_text(f) + frames_text(rest));
    }
}

/// The text that frames are shown as is made of the lines that show them
/// without labels.
pub proof fn lemma_text_is_unlabelled_lines(fs: Seq<FrameView>)
    ensures
        frames_text(fs) == joined(relabelled(fs, blank_labels(fs.len()))),
    decreases fs.len(),
{
    if fs.len() > 0 {
        let labels = blank_labels(fs.len());
        let head = frame_lines(fs[0], labels[0]);
        let fs1 = fs.skip(1);
        assert(labels.skip(1) =~= blank_labels(fs1.len()));
        lemma_text_is_unlabelled_lines(fs1);
        lemma_joined_concat(head, relabelled(fs1, labels.skip(1)));
        assert(seq![fs[0]] + fs1 =~= fs);
        lemma_frames_text_front(fs[0], fs1);
        assert(labels[0] + fs[0].symbol =~= fs[0].symbol);
        match fs[0].location {
            Some(l) => {
                assert(head.drop_last() =~= seq![fs[0].symbol]);
                lemma_joined_one(fs[0].symbol);
                assert(head.last() == l);
                assert(joined(head) =~= frame_text(fs[0]));
            },
            None => {
                assert(head =~= seq![fs[0].symbol]);
                lemma_joined_one(fs[0].symbol);
                assert(joined(head) =~= frame_text(fs[0]));
            },
        }
    }
}

/// Decoding is idempotent. Take the frames `fs` of a decoded trace and write
/// a trace of them: a first line `zero` that is neither the sentinel nor a
/// symbol line of index `1`, then each frame under a label of its own, the
/// first frame under index `1`. Decoding that trace gives `fs` again.
pub proof fn lemma_decode_is_idempotent(
    lines: Seq<Seq<char>>,
    deny: Set<Seq<char>>,
    fs: Seq<FrameView>,
    labels: Seq<Seq<char>>,
    zero: Seq<char>,
)
    requires
        decode_lines_spec(lines, deny) == Ok::<TraceView, DecodeFault>(TraceView::Frames(fs)),
        labels.len() == fs.len(),
        forall|k: int| 0 <= k < fs.len() ==> is_label(#[trigger] labels[k]),
        fs.len() > 0 ==> index_text(labels[0]) == seq!['1'],
        zero != "disabled backtrace"@,
        !is_frame_one(zero),
    ensures
        decode_lines_spec(seq![zero] + relabelled(fs, labels), deny) == Ok::<
            TraceView,
            DecodeFault,
        >(TraceView::Frames(fs)),
{
    lemma_frame_one_from(lines, 0);
    lemma_retained_frames(lines, frame_one_from(lines, 0), deny);
    lemma_relabelled_retained(fs, labels, deny);
    let pre = seq![zero];
    let body = relabelled(fs, labels);
    let all = pre + body;
    assert(all[0] == zero);
    lemma_retained_shift(pre, body, 0, deny);
    if fs.len() > 0 {
        lemma_labelled_line(labels[0], fs[0].symbol);
        assert(all[1] == body[0]);
        assert(is_frame_one(all[1]));
        assert(frame_one_from(all, 1) == 1);
        assert(frame_one_from(all, 0) == 1);
    } else {
        assert(all.len() == 1);
        assert(frame_one_from(all, 1) == 1);
        assert(frame_one_from(all, 0) == 1);
    }
}

} // verus!
