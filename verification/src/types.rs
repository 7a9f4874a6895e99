//! The data model of the container format: `Dmi`, its animation
//! `State`s, their staging and clipboard projections, and the error
//! taxonomy shared by every operation.

use vstd::prelude::*;
use crate::bitmap::Image;
use crate::text::{is_float_literal, is_ws, nl, sep_at};

verus! {

/// Everything that can go wrong while decoding, encoding, staging or
/// transcoding a container.
#[derive(Clone, Copy, Debug, PartialEq, Eq, Structural)]
pub enum DmiError {
    MissingData,
    MissingZTXTChunk,
    MissingMetadataHeader,
    InvalidMetadataVersion,
    MissingMetadataValue,
    OutOfOrderStateInfo,
    UnknownMetadataKey,
    ImageSizeMismatch,
    FindDirError,
    DirDoesNotExist,
    ParseInt,
    ParseFloat,
    PngDecoding,
    PngEncoding,
    DecodeError,
    TooLarge,
}

/// One named animation: `frame_count` steps, each with `dirs`
/// directional frames, flattened frame-major and direction-minor.
#[derive(Debug)]
pub struct State {
    pub name: Vec<u8>,
    pub dirs: u32,
    pub frames: Vec<Image>,
    pub frame_count: u32,
    pub delays: Vec<Vec<u8>>,
    pub loop_: u32,
    pub rewind: bool,
    pub movement: bool,
    pub hotspots: Vec<Vec<u8>>,
}

/// The container: shared frame dimensions and an ordered state list.
#[derive(Debug)]
pub struct Dmi {
    pub name: Vec<u8>,
    pub width: u32,
    pub height: u32,
    pub states: Vec<State>,
}

/// A state as the staging store records it: pixel data replaced by the
/// `frame_key` naming its per-frame files.
#[derive(Debug)]
pub struct SerializedState {
    pub name: Vec<u8>,
    pub dirs: u32,
    pub frame_key: Vec<u8>,
    pub frame_count: u32,
    pub delays: Vec<Vec<u8>>,
    pub loop_: u32,
    pub rewind: bool,
    pub movement: bool,
    pub hotspots: Vec<Vec<u8>>,
}

/// A container as the staging store records it, with the resolved
/// staging directory in `temp`.
#[derive(Debug)]
pub struct SerializedDmi {
    pub name: Vec<u8>,
    pub width: u32,
    pub height: u32,
    pub states: Vec<SerializedState>,
    pub temp: Vec<u8>,
}

/// A state ready for a text-only channel: every frame is a
/// self-describing `data:image/png;base64,` payload.
#[derive(Debug)]
pub struct ClipboardState {
    pub name: Vec<u8>,
    pub dirs: u32,
    pub frames: Vec<Vec<u8>>,
    pub delays: Vec<Vec<u8>>,
    pub loop_: u32,
    pub rewind: bool,
    pub movement: bool,
    pub hotspots: Vec<Vec<u8>>,
}

/// The views of a sequence of owned byte vectors.
pub open spec fn views(v: Seq<Vec<u8>>) -> Seq<Seq<u8>> {
    v.map_values(|x: Vec<u8>| x@)
}

/// A byte string that survives a metadata round trip in place: no line
/// breaks, no embedded `" = "` separator, no trailing whitespace.
pub open spec fn token_wf(t: Seq<u8>) -> bool {
    &&& forall|i: int| 0 <= i < t.len() ==> t[i] != nl() && t[i] != 13u8
    &&& forall|i: int| !sep_at(t, i)
    &&& t.len() > 0 ==> !is_ws(t[t.len() - 1])
}

impl State {
    /// All frames carry exactly the container's dimensions.
    pub open spec fn frames_wf(self, w: u32, h: u32) -> bool {
        forall|i: int|
            0 <= i < self.frames@.len() ==> (#[trigger] self.frames@[i]).wf()
                && self.frames@[i].width == w && self.frames@[i].height == h
    }

    /// The flattened frame count, `frame_count * dirs`.
    pub open spec fn flat_count(self) -> int {
        (self.frame_count as int) * (self.dirs as int)
    }

    /// The scalar fields are fit to be written to a metadata block and
    /// read back unchanged.
    pub open spec fn meta_wf(self) -> bool {
        &&& token_wf(self.name@)
        &&& self.name@.len() > 0 ==> self.name@[0] != '"' as u8 && self.name@[self.name@.len()
            - 1] != '"' as u8
        &&& forall|i: int|
            0 <= i < self.delays@.len() ==> is_float_literal(#[trigger] self.delays@[i]@)
        &&& forall|i: int|
            0 <= i < self.hotspots@.len() ==> token_wf(#[trigger] self.hotspots@[i]@)
                && self.hotspots@[i]@.len() > 0
    }

    /// Scalar fields equal, frames aside.
    pub open spec fn same_scalars(self, o: State) -> bool {
        &&& self.name@ == o.name@
        &&& self.dirs == o.dirs
        &&& self.frame_count == o.frame_count
        &&& views(self.delays@) == views(o.delays@)
        &&& self.loop_ == o.loop_
        &&& self.rewind == o.rewind
        &&& self.movement == o.movement
        &&& views(self.hotspots@) == views(o.hotspots@)
    }

    /// A fresh state, as a `state` metadata key introduces one.
    pub(crate) fn new(name: Vec<u8>) -> (r: State)
        ensures
            r.name@ == name@,
            r.dirs == 1,
            r.frames@.len() == 0,
            r.frame_count == 0,
            r.delays@.len() == 0,
            r.loop_ == 0,
            !r.rewind,
            !r.movement,
            r.hotspots@.len() == 0,
    {
        State {
            name,
            dirs: 1,
            frames: Vec::new(),
            frame_count: 0,
            delays: Vec::new(),
            loop_: 0,
            rewind: false,
            movement: false,
            hotspots: Vec::new(),
        }
    }

    /// A state with a single blank (fully transparent) frame.
    pub fn new_blank(name: Vec<u8>, width: u32, height: u32) -> (r: State)
        requires
            4 * ((width as int) * (height as int)) <= usize::MAX,
        ensures
            r.name@ == name@,
            r.dirs == 1,
            r.frame_count == 1,
            r.frames@.len() == 1,
            r.frames@[0].wf(),
            r.frames@[0].width == width,
            r.frames@[0].height == height,
            forall|k: int|
                0 <= k < r.frames@[0].pixels@.len() ==> r.frames@[0].pixels@[k] == 0u8,
            r.delays@.len() == 0,
            r.loop_ == 0,
            !r.rewind,
            !r.movement,
            r.hotspots@.len() == 0,
            r.frames_wf(width, height),
    {
        let frame = Image::blank(width, height).unwrap();
        let mut frames: Vec<Image> = Vec::new();
        frames.push(frame);
        State {
            name,
            dirs: 1,
            frames,
            frame_count: 1,
            delays: Vec::new(),
            loop_: 0,
            rewind: false,
            movement: false,
            hotspots: Vec::new(),
        }
    }
}

impl Dmi {
    /// An empty container.
    pub fn new(name: Vec<u8>, width: u32, height: u32) -> (r: Dmi)
        ensures
            r.name@ == name@,
            r.width == width,
            r.height == height,
            r.states@.len() == 0,
    {
        Dmi { name, width, height, states: Vec::new() }
    }

    /// Every frame of every state matches the container dimensions.
    pub open spec fn frames_wf(self) -> bool {
        forall|i: int|
            0 <= i < self.states@.len() ==> (#[trigger] self.states@[i]).frames_wf(
                self.width,
                self.height,
            )
    }

    /// Each state holds exactly its flattened frame count.
    pub open spec fn counts_wf(self) -> bool {
        forall|i: int|
            0 <= i < self.states@.len() ==> (#[trigger] self.states@[i]).frames@.len()
                == self.states@[i].flat_count()
    }

    /// Every state's text fields survive the metadata round trip.
    pub open spec fn meta_wf(self) -> bool {
        forall|i: int| 0 <= i < self.states@.len() ==> (#[trigger] self.states@[i]).meta_wf()
    }
}

} // verus!
