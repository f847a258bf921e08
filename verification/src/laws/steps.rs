//! A step buffer accumulates every signal on its own.

use vstd::prelude::*;

use crate::arith::Arith;
use crate::laws::scalars::accumulated;
use crate::step::sampled;
use crate::welford::Moments;

verus! {

/// The buffer after the samples, each under its signal, one after the other.
pub open spec fn buffered<F: Arith>(samples: Seq<(Seq<char>, F)>) -> Map<Seq<char>, Moments<F>>
    decreases samples.len(),
{
    if samples.len() == 0 {
        Map::empty()
    } else {
        sampled(buffered(samples.drop_last()), samples.last().0, samples.last().1)
    }
}

/// The samples of one signal, in order.
pub open spec fn samples_of<F>(samples: Seq<(Seq<char>, F)>, name: Seq<char>) -> Seq<F>
    decreases samples.len(),
{
    if samples.len() == 0 {
        Seq::empty()
    } else if samples.last().0 == name {
        samples_of(samples.drop_last(), name).push(samples.last().1)
    } else {
        samples_of(samples.drop_last(), name)
    }
}

/// What a buffer holds of a signal is the accumulator of its samples, and of no others;
/// and of a signal without samples it holds nothing.
pub proof fn law_a_buffer_keeps_signals_apart<F: Arith>(
    samples: Seq<(Seq<char>, F)>,
    name: Seq<char>,
)
    ensures
        buffered(samples).contains_key(name) <==> samples_of(samples, name).len() > 0,
        buffered(samples).contains_key(name) ==> buffered(samples)[name] == accumulated(
            samples_of(samples, name),
        ),
    decreases samples.len(),
{
    if samples.len() > 0 {
        law_a_buffer_keeps_signals_apart(samples.drop_last(), name);
        let (mine, x) = (samples_of(samples.drop_last(), name), samples.last().1);
        assert(mine.push(x).drop_last() =~= mine);
        if mine.len() == 0 {
            assert(accumulated(mine) == Moments::<F>::none());
        }
    }
}

} // verus!
