//! The feature-transformer accumulator: one row of `L0` values per perspective. The
//! feature set has no king-relative part, so the accumulator is always updated
//! incrementally.
use super::features::{active_features, spec_active_features, N_FEATURES};
use super::network::{Network, L0};
use crate::position::{Position, Snap};
use crate::types::{BLACK, WHITE};
use vstd::prelude::*;

verus! {

/// One accumulator row per perspective (0 = black, 1 = white).
pub type Frame = [[i16; 128]; 2];

/// The transformer weights of feature `f`; a row of zeros for an index outside the
/// table (such a feature contributes nothing).
pub open spec fn feature_row(net: Network, f: int) -> Seq<i16> {
    if 0 <= f < N_FEATURES {
        net.ft_weight@.subrange(f * 128, f * 128 + 128)
    } else {
        Seq::new(128, |j: int| 0i16)
    }
}

/// `acc` with `row` added to it (or subtracted when `add` is false), each entry
/// wrapping.
pub open spec fn with_row(acc: Seq<i16>, row: Seq<i16>, add: bool) -> Seq<i16> {
    Seq::new(
        128,
        |j: int|
            if add {
                vstd::wrapping::i16_specs::wrapping_add(acc[j], row[j])
            } else {
                vstd::wrapping::i16_specs::wrapping_sub(acc[j], row[j])
            },
    )
}

/// The bias with the rows of `feats` added in turn.
pub open spec fn acc_sum(net: Network, feats: Seq<u16>) -> Seq<i16>
    decreases feats.len(),
{
    if feats.len() == 0 {
        net.ft_bias@
    } else {
        with_row(acc_sum(net, feats.drop_last()), feature_row(net, feats.last() as int), true)
    }
}

/// The accumulator row of `perspective` computed from scratch.
pub open spec fn scratch_row(net: Network, s: Snap, perspective: u8) -> Seq<i16> {
    acc_sum(net, spec_active_features(s, perspective))
}

fn update_row(acc: &mut [i16; 128], feature: usize, net: &Network, add: bool)
    requires
        net.wf(),
    ensures
        final(acc)@ == with_row(old(acc)@, feature_row(*net, feature as int), add),
{
    if feature >= N_FEATURES {
        proof {
            assert(final(acc)@ =~= with_row(old(acc)@, feature_row(*net, feature as int), add));
        }
        return;
    }
    let row = net.ft_row(feature);
    let mut j: usize = 0;
    while j < L0
        invariant
            j <= 128,
            row@ == feature_row(*net, feature as int),
            row@.len() == 128,
            forall|t: int| 0 <= t < j ==> #[trigger] acc@[t] == with_row(old(acc)@, row@, add)[t],
            forall|t: int| j <= t < 128 ==> #[trigger] acc@[t] == old(acc)@[t],
        decreases 128 - j,
    {
        acc[j] = if add {
            acc[j].wrapping_add(row[j])
        } else {
            acc[j].wrapping_sub(row[j])
        };
        j = j + 1;
    }
    proof {
        assert(acc@ =~= with_row(old(acc)@, row@, add));
    }
}

/// Adds the row of `feature` to the accumulator.
pub fn add_col(acc: &mut [i16; 128], feature: usize, net: &Network)
    requires
        net.wf(),
    ensures
        final(acc)@ == with_row(old(acc)@, feature_row(*net, feature as int), true),
{
    update_row(acc, feature, net, true);
}

/// Subtracts the row of `feature` from the accumulator.
pub fn sub_col(acc: &mut [i16; 128], feature: usize, net: &Network)
    requires
        net.wf(),
    ensures
        final(acc)@ == with_row(old(acc)@, feature_row(*net, feature as int), false),
{
    update_row(acc, feature, net, false);
}

/// Both accumulator rows computed from scratch: the bias plus the rows of every
/// active feature.
pub fn refresh(pos: &Position, net: &Network) -> (r: Frame)
    requires
        pos.wf(),
        net.wf(),
    ensures
        r[0]@ == scratch_row(*net, pos.snap(), BLACK),
        r[1]@ == scratch_row(*net, pos.snap(), WHITE),
{
    let mut frame: Frame = [[0i16;128];2];
    let mut feats: Vec<u16> = Vec::new();
    let mut p: u8 = 0;
    while p < 2
        invariant
            p <= 2,
            pos.wf(),
            net.wf(),
            forall|q: int| 0 <= q < p ==> #[trigger] frame[q]@ == scratch_row(*net, pos.snap(), q as u8),
        decreases 2 - p,
    {
        let mut acc = net.ft_bias;
        active_features(pos, p, &mut feats);
        let mut i: usize = 0;
        while i < feats.len()
            invariant
                net.wf(),
                i <= feats.len(),
                acc@ == acc_sum(*net, feats@.take(i as int)),
            decreases feats.len() - i,
        {
            proof {
                assert(feats@.take(i + 1).drop_last() =~= feats@.take(i as int));
            }
            add_col(&mut acc, feats[i] as usize, net);
            i = i + 1;
        }
        proof {
            assert(feats@.take(feats.len() as int) =~= feats@);
        }
        frame[p as usize] = acc;
        p = p + 1;
    }
    frame
}

} // verus!
