//! RESP frames.

use vstd::prelude::*;

verus! {

/// One RESP value.
#[derive(Debug)]
pub enum Frame {
    Simple(String),
    Error(String),
    Integer(i64),
    Bulk(Option<Vec<u8>>),
    Array(Option<Vec<Frame>>),
}

/// The mathematical value of a frame.
pub enum SpecFrame {
    Simple(Seq<char>),
    Error(Seq<char>),
    Integer(int),
    Bulk(Option<Seq<u8>>),
    Array(Option<Seq<SpecFrame>>),
}

pub open spec fn frame_view(f: Frame) -> SpecFrame
    decreases f,
{
    match f {
        Frame::Simple(s) => SpecFrame::Simple(s@),
        Frame::Error(s) => SpecFrame::Error(s@),
        Frame::Integer(n) => SpecFrame::Integer(n as int),
        Frame::Bulk(None) => SpecFrame::Bulk(None),
        Frame::Bulk(Some(b)) => SpecFrame::Bulk(Some(b@)),
        Frame::Array(None) => SpecFrame::Array(None),
        Frame::Array(Some(v)) => SpecFrame::Array(
            Some(
                Seq::new(
                    v@.len(),
                    |i: int|
                        if 0 <= i < v@.len() {
                            frame_view(v@[i])
                        } else {
                            SpecFrame::Array(None)
                        },
                ),
            ),
        ),
    }
}

impl View for Frame {
    type V = SpecFrame;

    open spec fn view(&self) -> SpecFrame {
        frame_view(*self)
    }
}

/// The values of a sequence of frames.
pub open spec fn frames_view(v: Seq<Frame>) -> Seq<SpecFrame> {
    Seq::new(v.len(), |i: int| v[i]@)
}

} // verus!
