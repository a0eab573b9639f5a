//! The camera: its configured mode, and a simulated one.
use crate::app_config::is_fourcc;
use crate::vision::Rect;
use vstd::prelude::*;
use vstd::utf8::{encode_utf8, is_ascii_chars, is_ascii_chars_encode_utf8};

verus! {

/// Why a FOURCC is not taken.
#[derive(Clone, Copy, Debug, PartialEq, Eq, Structural)]
pub enum FourccError {
    /// It is not exactly four bytes.
    NotFourBytes,
    /// It is not ASCII.
    NotAscii,
}

/// Turn a configured FOURCC string into the exact four ASCII bytes that the
/// driver expects.
pub fn parse_fourcc(s: String) -> (r: Result<[u8; 4], FourccError>)
    ensures
        match r {
            Ok(bytes) => is_fourcc(s@) && bytes@ == encode_utf8(s@) && forall|i: int|
                #![trigger bytes@[i]]
                0 <= i < 4 ==> bytes@[i] == s@[i] as u8,
            Err(FourccError::NotFourBytes) => encode_utf8(s@).len() != 4,
            Err(FourccError::NotAscii) => encode_utf8(s@).len() == 4 && !is_ascii_chars(s@),
        },
{
    let text = s.as_str();
    let bytes = text.as_bytes();
    proof {
        if is_ascii_chars(s@) {
            is_ascii_chars_encode_utf8(s@);
        }
    }
    if bytes.len() != 4 {
        return Err(FourccError::NotFourBytes);
    }
    if !text.is_ascii() {
        return Err(FourccError::NotAscii);
    }
    let code = [bytes[0], bytes[1], bytes[2], bytes[3]];
    assert(code@ =~= bytes@);
    Ok(code)
}

/// The mode of a camera.
pub struct OpencvCamera {
    pub device_id: i32,
    pub width: u32,
    pub height: u32,
    pub fps: u32,
    pub fourcc: Option<[u8; 4]>,
}

/// What a camera was found to differ in from what was asked of it.
#[derive(Clone, Copy, Debug, PartialEq, Eq, Structural)]
pub struct Adopted {
    pub resolution: bool,
    pub fps: bool,
}

impl OpencvCamera {
    pub fn new(
        device_id: i32,
        width: u32,
        height: u32,
        fps: u32,
        fourcc: Option<String>,
    ) -> (r: Result<OpencvCamera, FourccError>)
        ensures
            match r {
                Ok(camera) => {
                    &&& camera.device_id == device_id
                    &&& camera.width == width
                    &&& camera.height == height
                    &&& camera.fps == fps
                    &&& match fourcc {
                        Some(code) => is_fourcc(code@) && camera.fourcc is Some
                            && camera.fourcc->0@ == encode_utf8(code@),
                        None => camera.fourcc is None,
                    }
                },
                Err(FourccError::NotFourBytes) => fourcc is Some && encode_utf8(
                    fourcc->0@,
                ).len() != 4,
                Err(FourccError::NotAscii) => fourcc is Some && encode_utf8(fourcc->0@).len() == 4
                    && !is_ascii_chars(fourcc->0@),
            },
    {
        let fourcc = match fourcc {
            Some(code) => match parse_fourcc(code) {
                Ok(bytes) => Some(bytes),
                Err(e) => {
                    return Err(e);
                },
            },
            None => None,
        };
        Ok(OpencvCamera { device_id, width, height, fps, fourcc })
    }

    /// Cameras silently fall back to the nearest mode they support: adopt
    /// what is actually in effect, so calibration stays honest. A device that
    /// reports zero does not know.
    pub fn adopt(&mut self, actual_w: u32, actual_h: u32, actual_fps: u32) -> (r: Adopted)
        ensures
            final(self).device_id == old(self).device_id,
            final(self).fourcc == old(self).fourcc,
            r.resolution == (actual_w != 0 && (actual_w != old(self).width || actual_h != old(
                self,
            ).height)),
            final(self).width == if actual_w != 0 {
                actual_w
            } else {
                old(self).width
            },
            final(self).height == if actual_w != 0 {
                actual_h
            } else {
                old(self).height
            },
            r.fps == (actual_fps != 0 && actual_fps != old(self).fps),
            final(self).fps == if actual_fps != 0 {
                actual_fps
            } else {
                old(self).fps
            },
    {
        let resolution = actual_w != 0 && (actual_w != self.width || actual_h != self.height);
        if resolution {
            self.width = actual_w;
            self.height = actual_h;
        }
        let fps = actual_fps != 0 && actual_fps != self.fps;
        if fps {
            self.fps = actual_fps;
        }
        Adopted { resolution, fps }
    }

    /// Capture resolution in effect.
    pub fn resolution(&self) -> (r: (u32, u32))
        ensures
            r == (self.width, self.height),
    {
        (self.width, self.height)
    }
}

/// Side of the synthetic square blob, in pixels.
pub const BLOB_PX: i32 = 40;

/// Frames the blob is absent at the end of each cycle. More than a track
/// survives unseen, so its track is given up before the blob shows again.
pub const GAP_FRAMES: u64 = 8;

/// A frame of the simulated camera: a flat background with or without a flat
/// square on it.
#[derive(Clone, Copy, Debug, PartialEq, Eq, Structural)]
pub struct MockFrame {
    pub width: i32,
    pub height: i32,
    pub background: u8,
    pub blob: Option<Rect>,
    pub blob_value: u8,
    /// How long the capture takes, in milliseconds.
    pub delay_ms: u64,
}

/// Mock camera honouring the configured resolution and frame rate.
pub struct MockCamera {
    pub width: u32,
    pub height: u32,
    pub fps: u32,
    /// Matches `[vision].invert` so the synthetic blob contrasts the belt the
    /// way the configured detector expects.
    pub invert: bool,
    /// Frame counter driving the deterministic blob cycle.
    pub frame: u64,
}

/// Frames in one cycle of about a second.
pub open spec fn cycle(fps: u32) -> int {
    if fps == 0 {
        1
    } else {
        fps as int
    }
}

/// The blob shows in this frame.
pub open spec fn shows_blob(fps: u32, frame: int) -> bool {
    frame % cycle(fps) < cycle(fps) - GAP_FRAMES
}

impl MockCamera {
    pub fn new(width: u32, height: u32, fps: u32, invert: bool) -> (r: MockCamera)
        ensures
            r == (MockCamera { width, height, fps, invert, frame: 0 }),
    {
        MockCamera { width, height, fps, invert, frame: 0 }
    }

    /// The next frame; none where the resolution is past what an image can
    /// have.
    pub fn get_frame(&mut self) -> (r: Option<MockFrame>)
        requires
            old(self).frame < u64::MAX,
        ensures
            match r {
                Some(f) => {
                    &&& old(self).width <= i32::MAX && old(self).height <= i32::MAX
                    &&& *final(self) == (MockCamera {
                        frame: (old(self).frame + 1) as u64,
                        ..*old(self)
                    })
                    &&& f.width == old(self).width
                    &&& f.height == old(self).height
                    &&& f.background == if old(self).invert {
                        200u8
                    } else {
                        0u8
                    }
                    &&& f.blob_value == if old(self).invert {
                        0u8
                    } else {
                        255u8
                    }
                    &&& f.blob is Some == shows_blob(old(self).fps, old(self).frame as int)
                    &&& f.blob matches Some(b) ==> {
                        &&& b.x == old(self).width / 2 - 20
                        &&& b.y == old(self).height / 2 - 20
                        &&& b.width == BLOB_PX && b.height == BLOB_PX
                    }
                    &&& f.delay_ms == 1000int / cycle(old(self).fps)
                },
                None => {
                    &&& old(self).width > i32::MAX || old(self).height > i32::MAX
                    &&& *final(self) == *old(self)
                },
            },
    {
        if self.width > 0x7fff_ffff || self.height > 0x7fff_ffff {
            return None;
        }
        let frames: u64 = if self.fps == 0 {
            1
        } else {
            self.fps as u64
        };
        let present: u64 = if frames < GAP_FRAMES {
            0
        } else {
            frames - GAP_FRAMES
        };
        let blob = if self.frame % frames < present {
            Some(
                Rect::new(
                    (self.width / 2) as i32 - BLOB_PX / 2,
                    (self.height / 2) as i32 - BLOB_PX / 2,
                    BLOB_PX,
                    BLOB_PX,
                ),
            )
        } else {
            None
        };
        let f = MockFrame {
            width: self.width as i32,
            height: self.height as i32,
            background: if self.invert {
                200
            } else {
                0
            },
            blob,
            blob_value: if self.invert {
                0
            } else {
                255
            },
            delay_ms: 1000 / frames,
        };
        self.frame = self.frame + 1;
        Some(f)
    }

    /// Capture resolution in effect.
    pub fn resolution(&self) -> (r: (u32, u32))
        ensures
            r == (self.width, self.height),
    {
        (self.width, self.height)
    }
}

/// The simulated part is away for longer than a track outlives its last
/// sighting, at every frame rate that shows it at all.
pub proof fn law_gap_outlasts_a_track(fps: u32, frame: int, k: int)
    requires
        frame >= 0,
        shows_blob(fps, frame),
        !shows_blob(fps, frame + 1),
        1 <= k <= crate::vision::tracker::default_tuning().max_missed_frames + 1,
    ensures
        !shows_blob(fps, frame + k),
{
    let c = cycle(fps);
    let r = frame % c;
    vstd::arithmetic::div_mod::lemma_fundamental_div_mod(frame, c);
    let q = frame / c;
    vstd::arithmetic::div_mod::lemma_fundamental_div_mod_converse(frame + 1, c, q, r + 1);
    vstd::arithmetic::div_mod::lemma_fundamental_div_mod_converse(frame + k, c, q, r + k);
}

/// In every second of frames the simulated part shows from the first on, and
/// is away in the last eight.
pub proof fn law_blob_is_away_at_the_end_of_a_cycle(fps: u32, second: int, k: int)
    requires
        fps > 0,
        second >= 0,
        0 <= k < fps,
    ensures
        shows_blob(fps, second * fps + k) <==> k + 8 < fps,
{
    vstd::arithmetic::div_mod::lemma_fundamental_div_mod_converse(
        second * fps + k,
        fps as int,
        second,
        k,
    );
}

} // verus!
