//! Euclidean rhythms: a number of hits spread as evenly as possible over a
//! number of steps.
use vstd::prelude::*;

verus! {

/// Whether step `i` of a Euclidean rhythm of `pulses` hits in `steps` steps
/// is a hit.
pub open spec fn euclidean_hit(steps: int, pulses: int, i: int) -> bool {
    if pulses == 0 {
        false
    } else if pulses >= steps {
        true
    } else {
        (i * pulses) % steps < pulses
    }
}

/// Generates a Euclidean rhythm of `steps` steps with `pulses` hits.
///
/// A hit carries `velocity`, any other step `rest`. With no pulses every step
/// rests, with at least as many pulses as steps every step hits; otherwise
/// step `i` hits when `i * pulses mod steps < pulses`.
pub fn generate_euclidean_rhythm<V: Copy>(steps: usize, pulses: usize, velocity: V, rest: V) -> (r:
    Vec<(bool, V)>)
    ensures
        r@.len() == steps,
        forall|i: int|
            0 <= i < steps ==> #[trigger] r@[i] == if euclidean_hit(
                steps as int,
                pulses as int,
                i,
            ) {
                (true, velocity)
            } else {
                (false, rest)
            },
{
    let mut rhythm: Vec<(bool, V)> = Vec::new();
    if steps == 0 {
        return rhythm;
    }
    let mut i: usize = 0;
    while i < steps
        invariant
            i <= steps,
            steps > 0,
            rhythm@.len() == i,
            forall|j: int|
                0 <= j < i ==> #[trigger] rhythm@[j] == if euclidean_hit(
                    steps as int,
                    pulses as int,
                    j,
                ) {
                    (true, velocity)
                } else {
                    (false, rest)
                },
        decreases steps - i,
    {
        let hit = if pulses == 0 {
            false
        } else if pulses >= steps {
            true
        } else {
            proof {
                assert((i as u128) * (pulses as u128) <= 0xffff_ffff_ffff_ffffu128
                    * 0xffff_ffff_ffff_ffffu128) by (nonlinear_arith)
                    requires
                        i <= 0xffff_ffff_ffff_ffffu128,
                        pulses <= 0xffff_ffff_ffff_ffffu128,
                ;
            }
            let product: u128 = (i as u128) * (pulses as u128);
            product % (steps as u128) < (pulses as u128)
        };
        if hit {
            rhythm.push((true, velocity));
        } else {
            rhythm.push((false, rest));
        }
        i = i + 1;
    }
    rhythm
}

} // verus!
