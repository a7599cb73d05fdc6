//! Choices of the audio processing chain that do not depend on sample values.

use vstd::prelude::*;
use crate::text::{chars_equal, chars_of};

verus! {

/// The equaliser presets.
#[derive(Clone, Copy, PartialEq, Eq, Structural, Debug)]
pub enum EqPreset {
    /// `off` or `flat`: no equalisation.
    Flat,
    /// `tv`: low-shelf cut, presence boost, high-shelf cut.
    Tv,
    /// `bright`: presence boost and high-shelf boost.
    Bright,
    /// Any other name: treated as flat, with a warning.
    Unknown,
}

/// The preset a name selects.
pub open spec fn eq_preset_of(name: Seq<char>) -> EqPreset {
    if name == "off"@ || name == "flat"@ {
        EqPreset::Flat
    } else if name == "tv"@ {
        EqPreset::Tv
    } else if name == "bright"@ {
        EqPreset::Bright
    } else {
        EqPreset::Unknown
    }
}

/// Reads an equaliser preset name.
pub fn eq_preset(name: &str) -> (r: EqPreset)
    ensures
        r == eq_preset_of(name@),
{
    let v = chars_of(name);
    if chars_equal(&v, &chars_of("off")) || chars_equal(&v, &chars_of("flat")) {
        EqPreset::Flat
    } else if chars_equal(&v, &chars_of("tv")) {
        EqPreset::Tv
    } else if chars_equal(&v, &chars_of("bright")) {
        EqPreset::Bright
    } else {
        EqPreset::Unknown
    }
}


/// The smallest of three numbers.
pub open spec fn min3(a: int, b: int, c: int) -> int {
    if a <= b && a <= c {
        a
    } else if b <= c {
        b
    } else {
        c
    }
}

/// The length of the stitched output of clips with lengths `lens`: the first clip
/// as it is; each further clip after `gap` samples of silence, its first samples
/// crossfaded with the last ones already written, over `xfade` samples at most and
/// never more than either side has.
pub open spec fn stitched_len(lens: Seq<usize>, xfade: int, gap: int) -> int
    decreases lens.len(),
{
    if lens.len() == 0 {
        0
    } else if lens.len() == 1 {
        lens[0] as int
    } else {
        let before = stitched_len(lens.drop_last(), xfade, gap) + gap;
        before - min3(xfade, before, lens.last() as int) + lens.last()
    }
}

/// How many samples of clip `i` are crossfaded with what precedes it.
pub open spec fn overlap_of(lens: Seq<usize>, xfade: int, gap: int, i: int) -> int {
    if i == 0 {
        0
    } else {
        min3(xfade, stitched_len(lens.take(i), xfade, gap) + gap, lens[i] as int)
    }
}

/// Where clip `i` starts in the stitched output.
pub open spec fn start_of(lens: Seq<usize>, xfade: int, gap: int, i: int) -> int {
    if i == 0 {
        0
    } else {
        stitched_len(lens.take(i), xfade, gap) + gap - overlap_of(lens, xfade, gap, i)
    }
}

/// Where one clip goes in the stitched output: it starts at `start`, and its first
/// `overlap` samples are crossfaded with what is already there.
#[derive(Clone, Copy, Debug)]
pub struct Placement {
    pub start: usize,
    pub overlap: usize,
}

/// The placements of all clips and the length of the output.
#[derive(Clone, Debug)]
pub struct StitchLayout {
    pub placements: Vec<Placement>,
    pub total: usize,
}

proof fn lemma_stitched_len_step(lens: Seq<usize>, xfade: int, gap: int, i: int)
    requires
        0 < i < lens.len(),
        xfade >= 0,
        gap >= 0,
    ensures
        stitched_len(lens.take(i + 1), xfade, gap) == start_of(lens, xfade, gap, i) + lens[i],
        stitched_len(lens.take(i), xfade, gap) + gap <= stitched_len(lens.take(i + 1), xfade, gap),
{
    assert(lens.take(i + 1).drop_last() =~= lens.take(i));
    assert(lens.take(i + 1).last() == lens[i]);
}

/// Lays out clips of the given lengths for stitching with a crossfade of `xfade`
/// samples and `gap` samples of silence between clips; `None` when the output would
/// be longer than a `usize` can count.
pub fn stitch_layout(lens: &Vec<usize>, xfade: usize, gap: usize) -> (r: Option<StitchLayout>)
    ensures
        match r {
            Some(l) => {
                &&& l.total == stitched_len(lens@, xfade as int, gap as int)
                &&& l.placements.len() == lens.len()
                &&& forall|i: int|
                    0 <= i < lens.len() ==> (#[trigger] l.placements[i]).start == start_of(
                        lens@,
                        xfade as int,
                        gap as int,
                        i,
                    ) && l.placements[i].overlap == overlap_of(lens@, xfade as int, gap as int, i)
            },
            None => stitched_len(lens@, xfade as int, gap as int) > usize::MAX,
        },
{
    let mut placements: Vec<Placement> = Vec::new();
    if lens.len() == 0 {
        return Some(StitchLayout { placements, total: 0 });
    }
    placements.push(Placement { start: 0, overlap: 0 });
    let mut total: usize = lens[0];
    assert(lens@.take(1).drop_last() =~= Seq::<usize>::empty());
    let mut i: usize = 1;
    while i < lens.len()
        invariant
            1 <= i <= lens.len(),
            placements.len() == i,
            total == stitched_len(lens@.take(i as int), xfade as int, gap as int),
            forall|k: int|
                0 <= k < i ==> (#[trigger] placements@[k]).start == start_of(
                    lens@,
                    xfade as int,
                    gap as int,
                    k,
                ) && placements@[k].overlap == overlap_of(lens@, xfade as int, gap as int, k),
        decreases lens.len() - i,
    {
        proof {
            lemma_stitched_len_step(lens@, xfade as int, gap as int, i as int);
        }
        if total > usize::MAX - gap {
            proof {
                lemma_stitched_len_prefix(lens@, xfade as int, gap as int, i as int + 1);
            }
            return None;
        }
        let before = total + gap;
        let len_i = lens[i];
        let overlap = if xfade <= before && xfade <= len_i {
            xfade
        } else if before <= len_i {
            before
        } else {
            len_i
        };
        let start = before - overlap;
        if len_i > usize::MAX - start {
            proof {
                lemma_stitched_len_prefix(lens@, xfade as int, gap as int, i as int + 1);
            }
            return None;
        }
        placements.push(Placement { start, overlap });
        total = start + len_i;
        i += 1;
    }
    assert(lens@.take(lens.len() as int) =~= lens@);
    Some(StitchLayout { placements, total })
}

/// Stitching never shortens: the output is at least as long as the stitch of any
/// prefix of the clips.
pub proof fn lemma_stitched_len_prefix(lens: Seq<usize>, xfade: int, gap: int, i: int)
    requires
        1 <= i <= lens.len(),
        xfade >= 0,
        gap >= 0,
    ensures
        stitched_len(lens.take(i), xfade, gap) <= stitched_len(lens, xfade, gap),
    decreases lens.len() - i,
{
    if i < lens.len() {
        lemma_stitched_len_step(lens, xfade, gap, i);
        lemma_stitched_len_prefix(lens, xfade, gap, i + 1);
    } else {
        assert(lens.take(i) =~= lens);
    }
}

/// The sum of the clip lengths.
pub open spec fn total_len(lens: Seq<usize>) -> int
    decreases lens.len(),
{
    if lens.len() == 0 {
        0
    } else {
        total_len(lens.drop_last()) + lens.last()
    }
}

/// Without a crossfade, stitching concatenates the clips with `gap` samples of
/// silence between consecutive ones.
pub proof fn lemma_stitch_without_crossfade(lens: Seq<usize>, gap: int)
    requires
        lens.len() > 0,
        gap >= 0,
    ensures
        stitched_len(lens, 0, gap) == total_len(lens) + (lens.len() - 1) * gap,
    decreases lens.len(),
{
    if lens.len() > 1 {
        lemma_stitch_without_crossfade(lens.drop_last(), gap);
        lemma_stitched_len_nonneg(lens.drop_last(), 0, gap);
        let n = lens.len() as int;
        assert((n - 2) * gap + gap == (n - 1) * gap) by (nonlinear_arith);
        assert(lens.drop_last().len() == n - 1);
        assert(lens.drop_last().last() == lens[n - 2]);
    } else {
        assert(lens.drop_last().len() == 0);
        assert(total_len(lens.drop_last()) == 0);
        assert((lens.len() - 1) * gap == 0);
    }
}

/// Every clip lies inside the output, and each clip after the first begins by
/// overlapping exactly the tail of what precedes it (the gap included).
pub proof fn lemma_placements_fit(lens: Seq<usize>, xfade: int, gap: int, i: int)
    requires
        0 < i < lens.len(),
        xfade >= 0,
        gap >= 0,
    ensures
        start_of(lens, xfade, gap, i) + overlap_of(lens, xfade, gap, i) == stitched_len(
            lens.take(i),
            xfade,
            gap,
        ) + gap,
        0 <= overlap_of(lens, xfade, gap, i) <= lens[i],
        start_of(lens, xfade, gap, i) + lens[i] <= stitched_len(lens, xfade, gap),
{
    lemma_stitched_len_step(lens, xfade, gap, i);
    lemma_stitched_len_prefix(lens, xfade, gap, i + 1);
    lemma_stitched_len_nonneg(lens.take(i), xfade, gap);
}

/// A stitched length is never negative.
pub proof fn lemma_stitched_len_nonneg(lens: Seq<usize>, xfade: int, gap: int)
    requires
        xfade >= 0,
        gap >= 0,
    ensures
        stitched_len(lens, xfade, gap) >= 0,
    decreases lens.len(),
{
    if lens.len() > 1 {
        lemma_stitched_len_nonneg(lens.drop_last(), xfade, gap);
    }
}

} // verus!
