//! What the operator sees of the belt, what is put before them to label, and
//! how the loop goes from frame to frame.
use super::pipeline::{color_of, drawn, loop_step, unrecognised, LoopEvent, LoopStep};
use super::{ClassName, DetectedObject, Rect};
use vstd::prelude::*;

verus! {

/// What was not recognised stands out by the red in its colour; all else is
/// the same.
pub proof fn law_unrecognised_stands_out(class: Option<ClassName>)
    ensures
        color_of(class).green == 255,
        color_of(class).blue == 0,
        class is Some ==> color_of(class).red == 0,
        class is None ==> color_of(class).red == 255,
{
}

/// A box is drawn where the object is and bears its name and its colour. The
/// name begins above the left edge of the box, eight pixels higher, but never
/// above the twelfth row.
pub proof fn law_box_bears_its_name(r: Rect, class: Option<ClassName>)
    ensures
        ({
            let o = drawn(r, class);
            let (x, y) = o.label_at;
            &&& o.rect == r
            &&& o.label == class
            &&& o.color == color_of(class)
            &&& x == r.x
            &&& y >= 12
            &&& y + 8 == r.y || (y == 12 && r.y < 20)
        }),
{
}

/// What is put before the operator is the box of every object that was not
/// recognised, in order, and of no other.
pub proof fn law_unrecognised_are_put_to_the_operator(
    objects: Seq<DetectedObject>,
    o: DetectedObject,
)
    ensures
        ({
            let boxes = |s: Seq<DetectedObject>|
                s.filter(unrecognised()).map_values(|o: DetectedObject| o.rect);
            &&& boxes(Seq::empty()).len() == 0
            &&& boxes(objects.push(o)) == if o.class is None {
                boxes(objects).push(o.rect)
            } else {
                boxes(objects)
            }
        }),
{
    reveal(Seq::filter);
    let rect = |o: DetectedObject| o.rect;
    let kept = objects.filter(unrecognised());
    assert(objects.push(o).drop_last() =~= objects);
    assert(kept.push(o).map_values(rect) =~= kept.map_values(rect).push(o.rect));
    assert(Seq::<DetectedObject>::empty().filter(unrecognised()).map_values(rect).len() == 0);
}

/// The loop ends when the shutdown signal is given or nobody can give it any
/// more, and when nobody takes the picks any more; for good, when processing
/// died. Nothing else ends it.
pub proof fn law_loop_ends_when_told(last: u64, e: LoopEvent)
    ensures
        loop_step(last, e) == LoopStep::Stop <==> (e == LoopEvent::ChannelClosed || (e matches
            LoopEvent::ShutdownChanged { gone, requested } && (gone || requested))),
        loop_step(last, e) == LoopStep::Die <==> e == LoopEvent::ProcessingDied,
{
}

/// A frame is processed when it was captured, and with the time since the
/// previous one; with none where the clock went back.
pub proof fn law_frame_is_processed_with_its_time(last: u64, e: LoopEvent)
    ensures
        loop_step(last, e) is Process <==> e is Captured,
        e matches LoopEvent::Captured { now } ==> {
            let dt = loop_step(last, e)->Process_dt;
            &&& last <= now ==> last + dt == now
            &&& now < last ==> dt == 0
        },
{
}

/// After a failure, and then only, the loop waits a moment before it captures
/// again.
pub proof fn law_failure_is_waited_out(last: u64, e: LoopEvent)
    ensures
        loop_step(last, e) is CaptureAfter <==> e == LoopEvent::CaptureFailed || e
            == LoopEvent::ProcessingFailed,
        loop_step(last, e) matches LoopStep::CaptureAfter { millis } ==> millis > 0,
        e == LoopEvent::Processed ==> loop_step(last, e) == LoopStep::Capture,
{
}

} // verus!
