//! Handing a scene's pictures to a backend that can keep them.
//!
//! A backend with memory of its own can hold every image and animation frame
//! a scene uses and draw them by name; one without keeps nothing, and the
//! renderer hands it the pixels every time. Which it is is the backend's
//! answer to each offer.
use vstd::prelude::*;

use super::Resources;
use crate::asset::gif::AnimationSpec;
use crate::asset::table::ImageSpec;
use super::damage::{spec_bounds, Damage};
use crate::color::Color;
use crate::geom::{Point, Rect, Size};
use crate::surface::{Surface, SurfaceOp, TextureId};

verus! {

/// A picture offered to a backend to keep: the id it would be kept under,
/// its pixels and its size.
pub struct Offer {
    /// The id it would be kept under.
    pub id: TextureId,
    /// Its pixels, row after row.
    pub pixels: Seq<Color>,
    /// Its width.
    pub w: u32,
    /// Its height.
    pub h: u32,
}

/// Every image of `images`, offered under its index, in table order.
pub open spec fn image_offers(images: Seq<ImageSpec>) -> Seq<Offer> {
    Seq::new(
        images.len(),
        |i: int|
            Offer {
                id: TextureId::Image { index: i as u32 },
                pixels: images[i].pixels,
                w: images[i].width,
                h: images[i].height,
            },
    )
}

/// Every frame of animation `anim`, offered under its animation and frame
/// indices, in playback order.
pub open spec fn anim_offers(anim: int, a: AnimationSpec) -> Seq<Offer> {
    Seq::new(
        a.frames.len(),
        |f: int|
            Offer {
                id: TextureId::AnimFrame { anim: anim as u32, frame: f as u32 },
                pixels: a.frames[f].pixels,
                w: a.width as u32,
                h: a.height as u32,
            },
    )
}

/// The frames of the first `k` animations of `anims`, in table order.
pub open spec fn frame_offers(anims: Seq<AnimationSpec>, k: int) -> Seq<Offer>
    decreases k,
{
    if k <= 0 {
        Seq::empty()
    } else {
        frame_offers(anims, k - 1) + anim_offers(k - 1, anims[k - 1])
    }
}

/// Everything [`upload_assets`] offers: every image, then every frame of
/// every animation.
pub open spec fn asset_offers(images: Seq<ImageSpec>, anims: Seq<AnimationSpec>) -> Seq<Offer> {
    image_offers(images) + frame_offers(anims, anims.len() as int)
}

/// The calls that make `offers` in order, each answered as `answers` says.
pub open spec fn answered(offers: Seq<Offer>, answers: Seq<bool>) -> Seq<SurfaceOp> {
    Seq::new(
        offers.len(),
        |i: int|
            SurfaceOp::Upload {
                id: offers[i].id,
                pixels: offers[i].pixels,
                w: offers[i].w,
                h: offers[i].h,
                taken: answers[i],
            },
    )
}

/// Giving up, in order, the id of every one of `offers`.
pub open spec fn releases(offers: Seq<Offer>) -> Seq<SurfaceOp> {
    Seq::new(offers.len(), |i: int| SurfaceOp::Release { id: offers[i].id })
}

/// Giving up two runs of offers is giving up the first, then the second.
proof fn lemma_releases_concat(a: Seq<Offer>, b: Seq<Offer>)
    ensures
        releases(a + b) == releases(a) + releases(b),
{
    assert(releases(a + b) =~= releases(a) + releases(b));
}

/// How many of the first `n` answers were yes.
pub open spec fn yes_count(taken: Seq<bool>, n: int) -> nat
    decreases n,
{
    if n <= 0 {
        0
    } else if taken[n - 1] {
        yes_count(taken, n - 1) + 1
    } else {
        yes_count(taken, n - 1)
    }
}

/// Offer one picture and record the answer.
fn offer<S: Surface>(
    surface: &mut S,
    id: TextureId,
    pixels: &[Color],
    w: u32,
    h: u32,
    taken: &mut u32,
    Ghost(offers): Ghost<Seq<Offer>>,
    Ghost(answers): Ghost<Seq<bool>>,
    Ghost(start): Ghost<Seq<SurfaceOp>>,
) -> (answer: Ghost<bool>)
    requires
        old(surface).spec_log() == start + answered(offers, answers),
        *old(taken) == yes_count(answers, answers.len() as int),
        answers.len() == offers.len(),
        offers.len() < u32::MAX,
    ensures
        final(surface).spec_size() == old(surface).spec_size(),
        final(surface).spec_log() == start + answered(
            offers.push(Offer { id, pixels: pixels@, w, h }),
            answers.push(answer@),
        ),
        *final(taken) == yes_count(answers.push(answer@), (answers.len() + 1) as int),
{
    let yes = surface.upload(id, pixels, w, h);
    let ghost next = offers.push(Offer { id, pixels: pixels@, w, h });
    let ghost said = answers.push(yes);
    proof {
        assert(answered(next, said) =~= answered(offers, answers).push(
            SurfaceOp::Upload { id, pixels: pixels@, w, h, taken: yes },
        ));
        lemma_yes_prefix(answers, said, answers.len() as int);
        assert(yes_count(answers, answers.len() as int) <= answers.len()) by {
            lemma_yes_bound(answers, answers.len() as int);
        }
    }
    if yes {
        *taken = *taken + 1;
    }
    Ghost(yes)
}

/// Only the first `n` answers are counted.
proof fn lemma_yes_prefix(a: Seq<bool>, b: Seq<bool>, n: int)
    requires
        0 <= n <= a.len(),
        n <= b.len(),
        forall|i: int| 0 <= i < n ==> a[i] == b[i],
    ensures
        yes_count(a, n) == yes_count(b, n),
    decreases n,
{
    if n > 0 {
        lemma_yes_prefix(a, b, n - 1);
    }
}

/// No more yes than answers.
proof fn lemma_yes_bound(a: Seq<bool>, n: int)
    requires
        0 <= n,
    ensures
        yes_count(a, n) <= n,
    decreases n,
{
    if n > 0 {
        lemma_yes_bound(a, n - 1);
    }
}

/// Offer every image and animation frame in `res` to the backend to keep.
///
/// Returns how many it took; nothing at all is the normal answer for a
/// software surface. Call it once when a scene loads, never inside a frame.
pub fn upload_assets<S: Surface>(surface: &mut S, res: Resources<'_>) -> (taken: u32)
    requires
        res.images@.len() <= u32::MAX,
        res.anims@.len() <= u32::MAX,
        forall|a: int| 0 <= a < res.anims@.len() ==> #[trigger] res.anims@[a].frames.len() <= u32::MAX,
        asset_offers(res.images@, res.anims@).len() < u32::MAX,
    ensures
        final(surface).spec_size() == old(surface).spec_size(),
        exists|answers: Seq<bool>|
            answers.len() == asset_offers(res.images@, res.anims@).len() && final(surface).spec_log()
                == old(surface).spec_log() + answered(asset_offers(res.images@, res.anims@), answers)
                && taken == yes_count(answers, answers.len() as int),
{
    let ghost start = surface.spec_log();
    let ghost all = asset_offers(res.images@, res.anims@);
    let ghost mut offers: Seq<Offer> = Seq::empty();
    let ghost mut answers: Seq<bool> = Seq::empty();
    let mut taken: u32 = 0;
    assert(surface.spec_log() =~= start + answered(offers, answers));
    let n = res.images.len() as u32;
    let mut index: u32 = 0;
    while index < n
        invariant
            0 <= index <= n,
            n == res.images@.len(),
            offers == image_offers(res.images@).take(index as int),
            answers.len() == offers.len(),
            all == asset_offers(res.images@, res.anims@),
            all.len() < u32::MAX,
            surface.spec_size() == old(surface).spec_size(),
            surface.spec_log() == start + answered(offers, answers),
            taken == yes_count(answers, answers.len() as int),
            start == old(surface).spec_log(),
        decreases n - index,
    {
        let img = match res.images.get(index) {
            Some(img) => img,
            None => {
                index += 1;
                continue;
            },
        };
        assert(offers.len() < u32::MAX) by {
            assert(image_offers(res.images@).len() <= all.len());
        }
        let Ghost(yes) = offer(
            surface,
            TextureId::Image { index },
            img.pixels.as_slice(),
            img.width,
            img.height,
            &mut taken,
            Ghost(offers),
            Ghost(answers),
            Ghost(start),
        );
        proof {
            assert(image_offers(res.images@).take(index + 1) =~= offers.push(
                Offer { id: TextureId::Image { index }, pixels: img.pixels@, w: img.width, h: img.height },
            ));
            offers = image_offers(res.images@).take(index + 1);
            answers = answers.push(yes);
        }
        index += 1;
    }
    assert(image_offers(res.images@).take(n as int) =~= image_offers(res.images@));
    let m = res.anims.len() as u32;
    let mut anim: u32 = 0;
    while anim < m
        invariant
            0 <= anim <= m,
            m == res.anims@.len(),
            forall|a: int| 0 <= a < res.anims@.len() ==> #[trigger] res.anims@[a].frames.len() <= u32::MAX,
            offers == image_offers(res.images@) + frame_offers(res.anims@, anim as int),
            answers.len() == offers.len(),
            all == asset_offers(res.images@, res.anims@),
            all.len() < u32::MAX,
            surface.spec_size() == old(surface).spec_size(),
            surface.spec_log() == start + answered(offers, answers),
            taken == yes_count(answers, answers.len() as int),
            start == old(surface).spec_log(),
        decreases m - anim,
    {
        let a = match res.anims.get(anim) {
            Some(a) => a,
            None => {
                anim += 1;
                continue;
            },
        };
        let ghost before = offers;
        let count = a.frames.len();
        let mut frame: usize = 0;
        while frame < count
            invariant
                0 <= frame <= count,
                count == a@.frames.len(),
                count <= u32::MAX,
                anim < m,
                m == res.anims@.len(),
                a@ == res.anims@[anim as int],
                before == image_offers(res.images@) + frame_offers(res.anims@, anim as int),
                offers == before + anim_offers(anim as int, a@).take(frame as int),
                answers.len() == offers.len(),
                all == asset_offers(res.images@, res.anims@),
                all.len() < u32::MAX,
                surface.spec_size() == old(surface).spec_size(),
                surface.spec_log() == start + answered(offers, answers),
                taken == yes_count(answers, answers.len() as int),
            decreases count - frame,
        {
            proof {
                lemma_frame_offers_grow(res.anims@, anim as int + 1, res.anims@.len() as int);
                assert(offers.len() < u32::MAX);
            }
            let f = &a.frames[frame];
            let Ghost(yes) = offer(
                surface,
                TextureId::AnimFrame { anim, frame: frame as u32 },
                f.pixels.as_slice(),
                a.width as u32,
                a.height as u32,
                &mut taken,
                Ghost(offers),
                Ghost(answers),
                Ghost(start),
            );
            proof {
                assert(anim_offers(anim as int, a@).take(frame + 1) =~= anim_offers(
                    anim as int,
                    a@,
                ).take(frame as int).push(
                    Offer {
                        id: TextureId::AnimFrame { anim, frame: frame as u32 },
                        pixels: f.pixels@,
                        w: a.width as u32,
                        h: a.height as u32,
                    },
                ));
                offers = before + anim_offers(anim as int, a@).take(frame + 1);
                answers = answers.push(yes);
            }
            frame += 1;
        }
        assert(anim_offers(anim as int, a@).take(count as int) =~= anim_offers(anim as int, a@));
        assert(offers =~= image_offers(res.images@) + frame_offers(res.anims@, anim + 1));
        anim += 1;
    }
    taken
}

/// The offers of the first `k` animations are among those of the first `j`.
proof fn lemma_frame_offers_grow(anims: Seq<AnimationSpec>, k: int, j: int)
    requires
        0 <= k <= j,
    ensures
        frame_offers(anims, k).len() <= frame_offers(anims, j).len(),
    decreases j - k,
{
    if k < j {
        lemma_frame_offers_grow(anims, k, j - 1);
    }
}

/// Release everything [`upload_assets`] offered for `res`.
///
/// Releasing an id the backend never took is not an error.
pub fn release_assets<S: Surface>(surface: &mut S, res: Resources<'_>)
    requires
        res.images@.len() <= u32::MAX,
        res.anims@.len() <= u32::MAX,
        forall|a: int| 0 <= a < res.anims@.len() ==> #[trigger] res.anims@[a].frames.len() <= u32::MAX,
    ensures
        final(surface).spec_size() == old(surface).spec_size(),
        final(surface).spec_log() == old(surface).spec_log() + releases(asset_offers(res.images@, res.anims@)),
{
    let ghost start = surface.spec_log();
    let ghost images = releases(image_offers(res.images@));
    let n = res.images.len() as u32;
    let mut index: u32 = 0;
    while index < n
        invariant
            0 <= index <= n,
            n == res.images@.len(),
            images == releases(image_offers(res.images@)),
            surface.spec_size() == old(surface).spec_size(),
            start == old(surface).spec_log(),
            surface.spec_log() == start + images.take(index as int),
        decreases n - index,
    {
        surface.release(TextureId::Image { index });
        assert(images.take(index + 1) =~= images.take(index as int).push(
            SurfaceOp::Release { id: TextureId::Image { index } },
        ));
        index += 1;
    }
    assert(images.take(n as int) =~= images);
    let m = res.anims.len() as u32;
    let mut anim: u32 = 0;
    while anim < m
        invariant
            0 <= anim <= m,
            m == res.anims@.len(),
            forall|a: int| 0 <= a < res.anims@.len() ==> #[trigger] res.anims@[a].frames.len() <= u32::MAX,
            images == releases(image_offers(res.images@)),
            surface.spec_size() == old(surface).spec_size(),
            start == old(surface).spec_log(),
            surface.spec_log() == start + images + releases(frame_offers(res.anims@, anim as int)),
        decreases m - anim,
    {
        let a = match res.anims.get(anim) {
            Some(a) => a,
            None => {
                anim += 1;
                continue;
            },
        };
        let ghost before = surface.spec_log();
        let ghost mine = releases(anim_offers(anim as int, a@));
        let count = a.frames.len() as u32;
        let mut frame: u32 = 0;
        while frame < count
            invariant
                0 <= frame <= count,
                count == a@.frames.len(),
                mine == releases(anim_offers(anim as int, a@)),
                surface.spec_size() == old(surface).spec_size(),
                surface.spec_log() == before + mine.take(frame as int),
            decreases count - frame,
        {
            surface.release(TextureId::AnimFrame { anim, frame });
            assert(mine.take(frame + 1) =~= mine.take(frame as int).push(
                SurfaceOp::Release { id: TextureId::AnimFrame { anim, frame } },
            ));
            frame += 1;
        }
        assert(mine.take(count as int) =~= mine);
        assert(a@ == res.anims@[anim as int]);
        proof {
            lemma_releases_concat(frame_offers(res.anims@, anim as int), anim_offers(anim as int, a@));
        }
        assert(surface.spec_log() =~= start + images + releases(frame_offers(res.anims@, anim + 1)));
        anim += 1;
    }
    proof {
        lemma_releases_concat(image_offers(res.images@), frame_offers(res.anims@, res.anims@.len() as int));
    }
    assert(surface.spec_log() =~= start + releases(asset_offers(res.images@, res.anims@)));
}

/// How one frame is to be drawn and presented.
#[derive(Clone, Copy, PartialEq, Eq, Structural, Debug)]
pub enum Repaint {
    /// Only the damaged rectangles, then the rectangle bounding them
    /// presented.
    Damage {
        /// What is presented: the bounds of the damage.
        present: Option<Rect>,
    },
    /// Everything, then the whole surface presented.
    Whole {
        /// What is presented: the whole surface.
        present: Rect,
    },
}

/// What drawing one frame comes to on a backend of `size` whose buffer
/// keeps what the last frame drew when `retains` holds, with `damage`
/// marked since then.
///
/// A backend that retains its content gets a damage-only repaint, and no
/// frame at all (`None`) when nothing moved; one that does not gets a full
/// repaint every frame, because nothing else would be correct.
pub fn frame_plan(damage: &Damage, retains: bool, size: Size) -> (res: Option<Repaint>)
    ensures
        retains && damage@.len() == 0 ==> res is None,
        retains && damage@.len() > 0 ==> res == Some(Repaint::Damage { present: spec_bounds(damage@) }),
        !retains ==> res == Some(
            Repaint::Whole { present: Rect { origin: Point { x: 0, y: 0 }, size } },
        ),
{
    if retains {
        if damage.is_empty() {
            None
        } else {
            Some(Repaint::Damage { present: damage.bounds() })
        }
    } else {
        Some(Repaint::Whole { present: Rect::new(0, 0, size.w, size.h) })
    }
}

} // verus!
