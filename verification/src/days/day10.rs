//! Day 10: machines with indicator lights, buttons and joltage counters.
//!
//! Every button toggles some lights and raises some counters. Part one asks
//! for the fewest presses that set the lights as wanted; part two for the
//! fewest presses that bring every counter to its wanted joltage, which an
//! outside solver is asked for.

use rayon::iter::{IntoParallelRefIterator, ParallelIterator};
use std::collections::HashSet;
use vstd::prelude::*;
use vstd::std_specs::hash::{group_hash_axioms, spec_hash_set_len};
use vstd::string::StringSliceAdditionalSpecFns;
use crate::solution::{Solution, SolvedValue};
use crate::solver::{
    add_constraint, as_number, at_least, check, equals_number, evaluate, fresh_button,
    minimize, model_of, new_optimizer, sum_of_picked, Term, Verdict,
};
use crate::text::{
    halves, halves_at_pair, lines, lines_of, padded_number_of, parse_padded_u64,
    pieces, split_on, split_once, split_once_pair, split_whitespace, strip_end, strip_start,
    trim_end_matches, trim_start_matches, views, words_of,
};

verus! {

pub type Button = Vec<usize>;

/// A machine: the wanted lights, the lights or counters that each button
/// acts on, and the wanted joltages.
#[derive(Debug)]
pub struct Machine {
    pub lights: Vec<bool>,
    pub buttons: Vec<Button>,
    pub joltages: Vec<usize>,
}

/// The number whose binary digits are the lights, the first light being the
/// lowest digit.
pub open spec fn lights_value(lights: Seq<bool>) -> u64
    decreases lights.len(),
{
    if lights.len() == 0 {
        0
    } else if lights.last() {
        lights_value(lights.drop_last()) ^ (1u64 << ((lights.len() - 1) as u64))
    } else {
        lights_value(lights.drop_last())
    }
}

/// The lights that a button toggles, as the binary digits of a number.
pub open spec fn mask_of(button: Seq<usize>) -> u64
    decreases button.len(),
{
    if button.len() == 0 {
        0
    } else {
        mask_of(button.drop_last()) ^ (1u64 << (button.last() as u64))
    }
}

/// The masks of a list of buttons.
pub open spec fn masks_of(buttons: Seq<Button>) -> Seq<u64> {
    Seq::new(buttons.len(), |b: int| mask_of(buttons[b]@))
}

/// Some `k` presses turn all lights off into the state `s`.
pub open spec fn reach(masks: Seq<u64>, s: u64, k: nat) -> bool
    decreases k,
{
    if k == 0 {
        s == 0
    } else {
        exists|b: int|
            0 <= b < masks.len() && reach(masks, s ^ #[trigger] masks[b], (k - 1) as nat)
    }
}

/// Some `d` presses or fewer give the state `s`.
pub open spec fn within(masks: Seq<u64>, s: u64, d: int) -> bool {
    exists|j: nat| j <= d && #[trigger] reach(masks, s, j)
}

/// The state `s` takes `d` presses and no fewer.
pub open spec fn at_distance(masks: Seq<u64>, s: u64, d: nat) -> bool {
    reach(masks, s, d) && !within(masks, s, d - 1)
}

/// The fewest presses that give the state `goal`. `None` where no presses
/// give it.
pub open spec fn fewest_presses(masks: Seq<u64>, goal: u64) -> Option<nat> {
    if exists|k: nat| reach(masks, goal, k) {
        Some(choose|k: nat| at_distance(masks, goal, k))
    } else {
        None
    }
}

/// Pressing a button twice changes nothing.
pub proof fn lemma_press_twice(s: u64, m: u64)
    ensures
        (s ^ m) ^ m == s,
{
    assert((s ^ m) ^ m == s) by (bit_vector);
}

/// One more press leads from a state of `k` presses to one of `k + 1`.
pub proof fn lemma_press(masks: Seq<u64>, s: u64, b: int, k: nat)
    requires
        0 <= b < masks.len(),
        reach(masks, s, k),
    ensures
        reach(masks, s ^ masks[b], k + 1),
{
    lemma_press_twice(s, masks[b]);
}

/// A state of `k + 1` presses comes from one of `k` presses by one press.
pub proof fn lemma_unpress(masks: Seq<u64>, t: u64, k: nat) -> (b: int)
    requires
        reach(masks, t, k + 1),
    ensures
        0 <= b < masks.len(),
        reach(masks, t ^ masks[b], k),
        (t ^ masks[b]) ^ masks[b] == t,
{
    let b = choose|b: int|
        0 <= b < masks.len() && reach(masks, t ^ #[trigger] masks[b], ((k + 1) - 1) as nat);
    lemma_press_twice(t, masks[b]);
    b
}

/// Where `d + 1` presses give no state that `d` presses or fewer do not
/// give, no number of presses does.
pub proof fn lemma_closed(masks: Seq<u64>, d: nat, s: u64, k: nat)
    requires
        forall|t: u64| reach(masks, t, d + 1) ==> within(masks, t, d as int),
        reach(masks, s, k),
    ensures
        within(masks, s, d as int),
    decreases k,
{
    if k > d {
        let b = lemma_unpress(masks, s, (k - 1) as nat);
        let p = s ^ masks[b];
        lemma_closed(masks, d, p, (k - 1) as nat);
        let j = choose|j: nat| j <= d && #[trigger] reach(masks, p, j);
        lemma_press(masks, p, b, j);
        if j + 1 > d {
            assert(reach(masks, s, d + 1));
        } else {
            assert(reach(masks, s, j + 1));
        }
    } else {
        assert(reach(masks, s, k));
    }
}

/// The distance of a state, once found, is its fewest presses.
pub proof fn lemma_fewest_is(masks: Seq<u64>, goal: u64, d: nat)
    requires
        at_distance(masks, goal, d),
    ensures
        fewest_presses(masks, goal) == Some(d),
{
    assert(reach(masks, goal, d));
    let k = choose|k: nat| at_distance(masks, goal, k);
    if k < d {
        assert(reach(masks, goal, k));
        assert(within(masks, goal, d - 1));
    } else if d < k {
        assert(within(masks, goal, k - 1));
    }
}

/// The state `t` is one press away from one of the first `i` states, or by
/// one of the first `j` buttons from state number `i`.
pub open spec fn made(frontier: Seq<u64>, masks: Seq<u64>, i: int, j: int, t: u64) -> bool {
    ||| exists|a: int, b: int|
        0 <= a < i && a < frontier.len() && 0 <= b < masks.len() && t == #[trigger] frontier[a]
            ^ #[trigger] masks[b]
    ||| exists|b: int|
        0 <= b < j && b < masks.len() && 0 <= i < frontier.len() && t == frontier[i]
            ^ #[trigger] masks[b]
}

/// What one more button makes.
pub proof fn lemma_made_next(frontier: Seq<u64>, masks: Seq<u64>, i: int, j: int, t: u64)
    requires
        0 <= i < frontier.len(),
        0 <= j < masks.len(),
    ensures
        made(frontier, masks, i, j + 1, t) <==> made(frontier, masks, i, j, t) || t == frontier[i]
            ^ masks[j],
{
    if made(frontier, masks, i, j + 1, t) && !made(frontier, masks, i, j, t) {
        let b = choose|b: int|
            0 <= b < j + 1 && b < masks.len() && 0 <= i < frontier.len() && t == frontier[i]
                ^ #[trigger] masks[b];
        if b < j {
            assert(made(frontier, masks, i, j, t));
        }
    }
    if t == frontier[i] ^ masks[j] {
        assert(0 <= j < j + 1 && t == frontier[i] ^ masks[j]);
    }
}

/// All buttons on one state make what none on the next state add to.
pub proof fn lemma_made_row(frontier: Seq<u64>, masks: Seq<u64>, i: int, t: u64)
    requires
        0 <= i < frontier.len(),
    ensures
        made(frontier, masks, i, masks.len() as int, t) <==> made(frontier, masks, i + 1, 0, t),
{
    if made(frontier, masks, i, masks.len() as int, t) {
        if exists|b: int|
            0 <= b < masks.len() && b < masks.len() && 0 <= i < frontier.len() && t == frontier[i]
                ^ #[trigger] masks[b] {
            let b = choose|b: int|
                0 <= b < masks.len() && b < masks.len() && 0 <= i < frontier.len() && t
                    == frontier[i] ^ #[trigger] masks[b];
            assert(0 <= i < i + 1 && t == frontier[i] ^ masks[b]);
        } else {
            let (a, b) = choose|a: int, b: int|
                0 <= a < i && a < frontier.len() && 0 <= b < masks.len() && t
                    == #[trigger] frontier[a] ^ #[trigger] masks[b];
            assert(0 <= a < i + 1 && t == frontier[a] ^ masks[b]);
        }
    }
    if made(frontier, masks, i + 1, 0, t) {
        let (a, b) = choose|a: int, b: int|
            0 <= a < i + 1 && a < frontier.len() && 0 <= b < masks.len() && t
                == #[trigger] frontier[a] ^ #[trigger] masks[b];
        if a < i {
            assert(0 <= a < i && t == frontier[a] ^ masks[b]);
        } else {
            assert(0 <= b < masks.len() && t == frontier[i] ^ masks[b]);
        }
    }
}

/// The number whose binary digits are the lights.
pub fn bool_vec_to_u64(vec: &[bool]) -> (value: u64)
    requires
        vec@.len() <= 64,
    ensures
        value == lights_value(vec@),
{
    let mut value: u64 = 0;
    let mut i: usize = 0;
    while i < vec.len()
        invariant
            i <= vec.len(),
            vec@.len() <= 64,
            value == lights_value(vec@.take(i as int)),
        decreases vec.len() - i,
    {
        proof {
            assert(vec@.take(i + 1).drop_last() == vec@.take(i as int));
        }
        if vec[i] {
            value = value ^ (1u64 << (i as u64));
        }
        i = i + 1;
    }
    proof {
        assert(vec@.take(vec.len() as int) == vec@);
    }
    value
}

/// Every light or counter that the button names has a number below 64.
pub open spec fn narrow(button: Seq<usize>) -> bool {
    forall|i: int| 0 <= i < button.len() ==> (#[trigger] button[i]) < 64
}

/// The lights that a button toggles, as the binary digits of a number.
pub fn button_mask(button: &Button) -> (mask: u64)
    requires
        narrow(button@),
    ensures
        mask == mask_of(button@),
{
    let mut mask: u64 = 0;
    let mut i: usize = 0;
    while i < button.len()
        invariant
            i <= button.len(),
            narrow(button@),
            mask == mask_of(button@.take(i as int)),
        decreases button.len() - i,
    {
        proof {
            assert(button@.take(i + 1).drop_last() == button@.take(i as int));
        }
        mask = mask ^ (1u64 << (button[i] as u64));
        i = i + 1;
    }
    proof {
        assert(button@.take(button.len() as int) == button@);
    }
    mask
}

impl Machine {
    /// The machine's lights fit a 64-bit state: there are at most 64 of
    /// them, and no button names a light beyond.
    pub open spec fn wf(&self) -> bool {
        &&& self.lights@.len() <= 64
        &&& forall|b: int| 0 <= b < self.buttons@.len() ==> narrow((#[trigger] self.buttons@[b])@)
    }

    /// The fewest presses that set the lights as wanted, or the greatest
    /// number where no presses do. A machine without buttons is given up at
    /// once.
    pub open spec fn fewest(&self) -> usize {
        if self.buttons@.len() == 0 {
            usize::MAX
        } else {
            match fewest_presses(masks_of(self.buttons@), lights_value(self.lights@)) {
                Some(k) => k as usize,
                None => usize::MAX,
            }
        }
    }

    /// Whether the machine's lights fit a 64-bit state.
    pub fn is_wf(&self) -> (r: bool)
        ensures
            r == self.wf(),
    {
        if self.lights.len() > 64 {
            return false;
        }
        let mut b: usize = 0;
        while b < self.buttons.len()
            invariant
                b <= self.buttons.len(),
                forall|k: int| 0 <= k < b ==> narrow((#[trigger] self.buttons@[k])@),
            decreases self.buttons.len() - b,
        {
            let button = &self.buttons[b];
            let mut i: usize = 0;
            while i < button.len()
                invariant
                    i <= button.len(),
                    b < self.buttons.len(),
                    button@ == self.buttons@[b as int]@,
                    forall|k: int| 0 <= k < i ==> (#[trigger] button@[k]) < 64,
                decreases button.len() - i,
            {
                if button[i] >= 64 {
                    proof {
                        assert(self.buttons@[b as int]@[i as int] >= 64);
                        assert(!narrow(self.buttons@[b as int]@));
                    }
                    return false;
                }
                i = i + 1;
            }
            b = b + 1;
        }
        true
    }

    /// The masks of the machine's buttons.
    pub fn masks(&self) -> (masks: Vec<u64>)
        requires
            self.wf(),
        ensures
            masks@ == masks_of(self.buttons@),
    {
        let mut masks: Vec<u64> = Vec::new();
        let mut b: usize = 0;
        while b < self.buttons.len()
            invariant
                b <= self.buttons.len(),
                self.wf(),
                masks@.len() == b,
                forall|k: int| 0 <= k < b ==> (#[trigger] masks@[k]) == mask_of(self.buttons@[k]@),
            decreases self.buttons.len() - b,
        {
            masks.push(button_mask(&self.buttons[b]));
            b = b + 1;
        }
        proof {
            assert(masks@ =~= masks_of(self.buttons@));
        }
        masks
    }

    /// The fewest presses that set the lights as wanted, found by searching
    /// the states level by level.
    pub fn init_steps(&self) -> (steps: usize)
        requires
            self.wf(),
        ensures
            steps == self.fewest(),
            self.buttons@.len() > 0 ==> match fewest_presses(
                masks_of(self.buttons@),
                lights_value(self.lights@),
            ) {
                Some(k) => k == steps && k < usize::MAX,
                None => steps == usize::MAX,
            },
    {
        broadcast use group_hash_axioms;

        if self.buttons.len() == 0 {
            return usize::MAX;
        }
        let goal: u64 = bool_vec_to_u64(self.lights.as_slice());
        let masks = self.masks();
        let ghost ms = masks@;
        let mut visited: HashSet<u64> = HashSet::new();
        visited.insert(0);
        let mut frontier: Vec<u64> = Vec::new();
        frontier.push(0);
        let mut depth: usize = 0;
        proof {
            assert(reach(ms, 0, 0));
            assert forall|s: u64| visited@.contains(s) <==> within(ms, s, 0) by {
                if within(ms, s, 0) {
                    let j = choose|j: nat| j <= 0 && #[trigger] reach(ms, s, j);
                }
            }
            assert(at_distance(ms, 0, 0));
            assert(frontier@[0] == 0);
            assert(spec_hash_set_len(&visited) == visited@.len());
        }
        loop
            invariant
                ms == masks@,
                ms == masks_of(self.buttons@),
                goal == lights_value(self.lights@),
                self.buttons@.len() > 0,
                visited@.finite(),
                depth < visited@.len(),
                visited@.len() <= usize::MAX,
                !within(ms, goal, depth - 1),
                forall|s: u64| visited@.contains(s) <==> within(ms, s, depth as int),
                forall|i: int|
                    0 <= i < frontier@.len() ==> at_distance(ms, #[trigger] frontier@[i], depth as nat),
                forall|s: u64| at_distance(ms, s, depth as nat) ==> frontier@.contains(s),
            decreases usize::MAX - visited@.len(),
        {
            let mut f: usize = 0;
            while f < frontier.len()
                invariant
                    f <= frontier.len(),
                    ms == masks_of(self.buttons@),
                    goal == lights_value(self.lights@),
                    self.buttons@.len() > 0,
                    depth < usize::MAX,
                    forall|i: int| 0 <= i < f ==> frontier@[i] != goal,
                    forall|i: int|
                        0 <= i < frontier@.len() ==> at_distance(
                            ms,
                            #[trigger] frontier@[i],
                            depth as nat,
                        ),
                decreases frontier.len() - f,
            {
                if frontier[f] == goal {
                    proof {
                        lemma_fewest_is(ms, goal, depth as nat);
                    }
                    return depth;
                }
                f = f + 1;
            }
            proof {
                if reach(ms, goal, depth as nat) {
                    assert(at_distance(ms, goal, depth as nat));
                    let i = choose|i: int| 0 <= i < frontier@.len() && frontier@[i] == goal;
                }
                assert(!within(ms, goal, depth as int)) by {
                    if within(ms, goal, depth as int) {
                        let j = choose|j: nat| j <= depth && #[trigger] reach(ms, goal, j);
                        if j < depth {
                            assert(within(ms, goal, depth - 1));
                        }
                    }
                }
            }
            let ghost seen = visited@;
            let ghost fr = frontier@;
            let mut next: Vec<u64> = Vec::new();
            let mut i: usize = 0;
            while i < frontier.len()
                invariant
                    i <= frontier.len(),
                    ms == masks@,
                    fr == frontier@,
                    seen.finite(),
                    visited@.finite(),
                    visited@.len() == seen.len() + next@.len(),
                    visited@.len() <= usize::MAX,
                    forall|s: u64| seen.contains(s) <==> within(ms, s, depth as int),
                    forall|k: int|
                        0 <= k < fr.len() ==> at_distance(ms, #[trigger] fr[k], depth as nat),
                    forall|t: u64|
                        visited@.contains(t) <==> seen.contains(t) || made(fr, ms, i as int, 0, t),
                    forall|k: int|
                        0 <= k < next@.len() ==> at_distance(
                            ms,
                            #[trigger] next@[k],
                            (depth + 1) as nat,
                        ),
                    forall|t: u64|
                        made(fr, ms, i as int, 0, t) && !seen.contains(t) ==> next@.contains(t),
                decreases frontier.len() - i,
            {
                let state: u64 = frontier[i];
                let mut j: usize = 0;
                while j < masks.len()
                    invariant
                        i < frontier.len(),
                        j <= masks.len(),
                        ms == masks@,
                        fr == frontier@,
                        state == fr[i as int],
                        seen.finite(),
                        visited@.finite(),
                        visited@.len() == seen.len() + next@.len(),
                        visited@.len() <= usize::MAX,
                        forall|s: u64| seen.contains(s) <==> within(ms, s, depth as int),
                        forall|k: int|
                            0 <= k < fr.len() ==> at_distance(ms, #[trigger] fr[k], depth as nat),
                        forall|t: u64|
                            visited@.contains(t) <==> seen.contains(t) || made(
                                fr,
                                ms,
                                i as int,
                                j as int,
                                t,
                            ),
                        forall|k: int|
                            0 <= k < next@.len() ==> at_distance(
                                ms,
                                #[trigger] next@[k],
                                (depth + 1) as nat,
                            ),
                        forall|t: u64|
                            made(fr, ms, i as int, j as int, t) && !seen.contains(t)
                                ==> next@.contains(t),
                    decreases masks.len() - j,
                {
                    let new_state: u64 = state ^ masks[j];
                    let ghost before = visited@;
                    let ghost found = next@;
                    let fresh: bool = visited.insert(new_state);
                    proof {
                        assert(visited@ == before.insert(new_state));
                        assert(spec_hash_set_len(&visited) == visited@.len());
                    }
                    if fresh {
                        next.push(new_state);
                        proof {
                            assert(fr[i as int] == state);
                            lemma_press(ms, state, j as int, depth as nat);
                            assert(!seen.contains(new_state));
                            assert(at_distance(ms, new_state, (depth + 1) as nat));
                            assert(next@[found.len() as int] == new_state);
                            assert forall|k: int| 0 <= k < next@.len() implies at_distance(
                                ms,
                                #[trigger] next@[k],
                                (depth + 1) as nat,
                            ) by {
                                if k < found.len() {
                                    assert(next@[k] == found[k]);
                                }
                            }
                        }
                    }
                    let ghost jo = j as int;
                    j = j + 1;
                    proof {
                        assert forall|t: u64|
                            visited@.contains(t) <==> seen.contains(t) || made(
                                fr,
                                ms,
                                i as int,
                                j as int,
                                t,
                            ) by {
                            lemma_made_next(fr, ms, i as int, jo, t);
                            assert(before.contains(t) <==> seen.contains(t) || made(
                                fr,
                                ms,
                                i as int,
                                jo,
                                t,
                            ));
                            assert(visited@.contains(t) <==> before.contains(t) || t == new_state);
                            assert(new_state == fr[i as int] ^ ms[jo]);
                        }
                        assert forall|t: u64|
                            made(fr, ms, i as int, j as int, t) && !seen.contains(t)
                                implies next@.contains(t) by {
                            lemma_made_next(fr, ms, i as int, jo, t);
                            if made(fr, ms, i as int, jo, t) {
                                let k = choose|k: int| 0 <= k < found.len() && found[k] == t;
                                assert(next@[k] == t);
                            } else {
                                assert(t == new_state);
                                assert(!before.contains(t));
                                assert(next@[found.len() as int] == t);
                            }
                        }
                    }
                }
                let ghost io = i as int;
                let ghost jl = j as int;
                proof {
                    assert(jl == ms.len());
                }
                i = i + 1;
                proof {
                    assert forall|t: u64|
                        visited@.contains(t) <==> seen.contains(t) || made(
                            fr,
                            ms,
                            i as int,
                            0,
                            t,
                        ) by {
                        lemma_made_row(fr, ms, io, t);
                        assert(visited@.contains(t) <==> seen.contains(t) || made(fr, ms, io, jl, t));
                    }
                    assert forall|t: u64|
                        made(fr, ms, i as int, 0, t) && !seen.contains(t) implies next@.contains(
                        t,
                    ) by {
                        lemma_made_row(fr, ms, io, t);
                        assert(made(fr, ms, io, jl, t) && !seen.contains(t) ==> next@.contains(t));
                    }
                }
            }
            proof {
                assert forall|s: u64| visited@.contains(s) <==> within(ms, s, depth + 1) by {
                    if visited@.contains(s) && !seen.contains(s) {
                        let (a, b) = choose|a: int, b: int|
                            0 <= a < fr.len() && a < fr.len() && 0 <= b < ms.len() && s
                                == #[trigger] fr[a] ^ #[trigger] ms[b];
                        lemma_press(ms, fr[a], b, depth as nat);
                        assert(reach(ms, s, (depth + 1) as nat));
                    }
                    if seen.contains(s) {
                        let j = choose|j: nat| j <= depth && #[trigger] reach(ms, s, j);
                        assert(j <= depth + 1 && reach(ms, s, j));
                    }
                    if within(ms, s, depth + 1) && !seen.contains(s) {
                        let j = choose|j: nat| j <= depth + 1 && #[trigger] reach(ms, s, j);
                        if j <= depth {
                            assert(within(ms, s, depth as int));
                        }
                        lemma_generated(ms, fr, s, depth as nat);
                    }
                }
                assert forall|s: u64| at_distance(ms, s, (depth + 1) as nat) implies next@.contains(
                    s,
                ) by {
                    lemma_generated(ms, fr, s, depth as nat);
                }
            }
            if next.len() == 0 {
                proof {
                    assert forall|t: u64| reach(ms, t, (depth + 1) as nat) implies within(
                        ms,
                        t,
                        depth as int,
                    ) by {
                        if !within(ms, t, depth as int) {
                            assert(at_distance(ms, t, (depth + 1) as nat));
                            assert(next@.contains(t));
                        }
                    }
                    assert forall|k: nat| !reach(ms, goal, k) by {
                        if reach(ms, goal, k) {
                            lemma_closed(ms, depth as nat, goal, k);
                        }
                    }
                }
                return usize::MAX;
            }
            frontier = next;
            depth = depth + 1;
        }
    }
}

/// A state that takes `d + 1` presses and no fewer is one press away from a
/// state of the frontier, where the frontier holds every state that takes
/// `d` presses and no fewer.
pub proof fn lemma_generated(masks: Seq<u64>, frontier: Seq<u64>, s: u64, d: nat)
    requires
        reach(masks, s, d + 1),
        !within(masks, s, d as int),
        forall|t: u64| at_distance(masks, t, d) ==> frontier.contains(t),
    ensures
        made(frontier, masks, frontier.len() as int, 0, s),
{
    let b = lemma_unpress(masks, s, d);
    let p = s ^ masks[b];
    assert(!within(masks, p, d - 1)) by {
        if within(masks, p, d - 1) {
            let j = choose|j: nat| j <= d - 1 && #[trigger] reach(masks, p, j);
            lemma_press(masks, p, b, j);
            assert(reach(masks, s, j + 1));
            assert(within(masks, s, d as int));
        }
    }
    assert(at_distance(masks, p, d));
    assert(frontier.contains(p));
    let a = choose|a: int| 0 <= a < frontier.len() && frontier[a] == p;
    assert(0 <= a < frontier.len() && 0 <= b < masks.len() && s == frontier[a] ^ masks[b]);
}

/// The button lists of a machine's buttons.
pub open spec fn lists_of(buttons: Seq<Button>) -> Seq<Seq<usize>> {
    Seq::new(buttons.len(), |b: int| buttons[b]@)
}

/// A machine as read from a line: the lights, the button lists, the
/// joltages.
pub type Reading = (Seq<bool>, Seq<Seq<usize>>, Seq<usize>);

/// The lights of a reading fit a 64-bit state.
pub open spec fn fits(reading: Reading) -> bool {
    &&& reading.0.len() <= 64
    &&& forall|b: int| 0 <= b < reading.1.len() ==> narrow(#[trigger] reading.1[b])
}

/// The fewest presses that set the lights of a reading as wanted, or the
/// greatest number where no presses do or there is no button.
pub open spec fn fewest_of(reading: Reading) -> usize {
    if reading.1.len() == 0 {
        usize::MAX
    } else {
        match fewest_presses(
            Seq::new(reading.1.len(), |b: int| mask_of(reading.1[b])),
            lights_value(reading.0),
        ) {
            Some(k) => k as usize,
            None => usize::MAX,
        }
    }
}

/// The number written by `s`, blanks around it set aside, where it fits the
/// machine word.
pub open spec fn index_of(s: Seq<u8>) -> Option<usize> {
    match padded_number_of(s) {
        Some(v) => if v <= usize::MAX {
            Some(v as usize)
        } else {
            None
        },
        None => None,
    }
}

/// The numbers written by the parts that write one.
pub open spec fn indices_of(parts: Seq<Seq<u8>>) -> Seq<usize>
    decreases parts.len(),
{
    if parts.len() == 0 {
        Seq::empty()
    } else {
        match index_of(parts.last()) {
            Some(n) => indices_of(parts.drop_last()).push(n),
            None => indices_of(parts.drop_last()),
        }
    }
}

/// The button list that a word like `(1,3)` writes.
pub open spec fn button_of(word: Seq<u8>) -> Seq<usize> {
    indices_of(pieces(strip_end(strip_start(word, 40), 41), 44))
}

/// The lights that the drawing between brackets shows: on where a `#`
/// stands.
pub open spec fn lights_of(drawing: Seq<u8>) -> Seq<bool> {
    Seq::new((drawing.len() - 2) as nat, |i: int| drawing[i + 1] == 35)
}

/// The machine that a line like `[.##.] (3) (1,3) {3,5,4,7}` writes.
/// `None` for a line without a blank, with a drawing of less than the two
/// brackets, or without the brace that opens the joltages.
pub open spec fn machine_of(line: Seq<u8>) -> Option<Reading> {
    match halves(line, 32) {
        Some(parts) => if parts.0.len() < 2 {
            None
        } else {
            match halves_at_pair(parts.1, 32, 123) {
                Some(rest) => Some(
                    (
                        lights_of(parts.0),
                        Seq::new(
                            words_of(rest.0).len(),
                            |b: int| button_of(words_of(rest.0)[b]),
                        ),
                        indices_of(pieces(strip_end(rest.1, 125), 44)),
                    ),
                ),
                None => None,
            }
        },
        None => None,
    }
}

/// The machines written by the lines. `None` where some line writes none.
pub open spec fn machines_of(lines: Seq<Seq<u8>>) -> Option<Seq<Reading>>
    decreases lines.len(),
{
    if lines.len() == 0 {
        Some(Seq::empty())
    } else {
        match (machines_of(lines.drop_last()), machine_of(lines.last())) {
            (Some(rest), Some(machine)) => Some(rest.push(machine)),
            _ => None,
        }
    }
}

/// Where the lines up to some place write no machines, all of them write
/// none.
pub proof fn lemma_machines_prefix(lines: Seq<Seq<u8>>, k: int)
    requires
        0 <= k <= lines.len(),
        machines_of(lines.take(k)).is_none(),
    ensures
        machines_of(lines).is_none(),
    decreases lines.len(),
{
    if k < lines.len() {
        assert(lines.drop_last().take(k) == lines.take(k));
        lemma_machines_prefix(lines.drop_last(), k);
    } else {
        assert(lines.take(k) == lines);
    }
}

/// The sum of the fewest presses of the machines.
pub open spec fn total_fewest(machines: Seq<Reading>) -> nat
    decreases machines.len(),
{
    if machines.len() == 0 {
        0
    } else {
        total_fewest(machines.drop_last()) + fewest_of(machines.last()) as nat
    }
}

/// The total only grows with further machines.
pub proof fn lemma_total_fewest_prefix(machines: Seq<Reading>, k: int)
    requires
        0 <= k <= machines.len(),
    ensures
        total_fewest(machines.take(k)) <= total_fewest(machines),
    decreases machines.len(),
{
    if k < machines.len() {
        assert(machines.drop_last().take(k) == machines.take(k));
        lemma_total_fewest_prefix(machines.drop_last(), k);
    } else {
        assert(machines.take(k) == machines);
    }
}

/// Reads the numbers that the parts of `bytes` between commas write.
pub fn parse_indices(bytes: &[u8]) -> (r: Vec<usize>)
    ensures
        r@ == indices_of(pieces(bytes@, 44)),
{
    let parts = split_on(bytes, 44);
    let mut numbers: Vec<usize> = Vec::new();
    let mut i: usize = 0;
    while i < parts.len()
        invariant
            i <= parts.len(),
            numbers@ == indices_of(views(parts@).take(i as int)),
        decreases parts.len() - i,
    {
        proof {
            let upto = views(parts@).take(i + 1);
            assert(upto.drop_last() == views(parts@).take(i as int));
            assert(upto.last() == parts[i as int]@);
        }
        match parse_padded_u64(parts[i].as_slice()) {
            Some(v) => {
                if v <= usize::MAX as u64 {
                    numbers.push(v as usize);
                }
            },
            None => {},
        }
        i = i + 1;
    }
    proof {
        assert(views(parts@).take(parts.len() as int) == views(parts@));
    }
    numbers
}

impl Machine {
    /// The machine as a value.
    pub open spec fn reading(&self) -> Reading {
        (self.lights@, lists_of(self.buttons@), self.joltages@)
    }

    /// What fits the machine fits its reading, and the fewest presses are
    /// the same.
    pub proof fn lemma_reading(&self)
        ensures
            self.wf() == fits(self.reading()),
            self.fewest() == fewest_of(self.reading()),
    {
        let lists = lists_of(self.buttons@);
        assert(masks_of(self.buttons@) =~= Seq::new(lists.len(), |b: int| mask_of(lists[b])));
        if self.wf() {
            assert forall|b: int| 0 <= b < lists.len() implies narrow(#[trigger] lists[b]) by {
                assert(narrow(self.buttons@[b]@));
            }
        }
        if fits(self.reading()) {
            assert forall|b: int| 0 <= b < self.buttons@.len() implies narrow(
                (#[trigger] self.buttons@[b])@,
            ) by {
                assert(narrow(lists[b]));
            }
        }
    }
}

/// Reads the machine that a line writes.
pub fn parse_machine(line: &[u8]) -> (r: Option<Machine>)
    ensures
        match r {
            Some(machine) => machine_of(line@) == Some(machine.reading()),
            None => machine_of(line@).is_none(),
        },
{
    let (drawing, rest) = match split_once(line, 32) {
        Some(parts) => parts,
        None => {
            return None;
        },
    };
    if drawing.len() < 2 {
        return None;
    }
    let mut lights: Vec<bool> = Vec::new();
    let mut i: usize = 1;
    while i < drawing.len() - 1
        invariant
            1 <= i <= drawing.len() - 1,
            lights@.len() == i - 1,
            forall|k: int| 0 <= k < i - 1 ==> (#[trigger] lights@[k]) == (drawing@[k + 1] == 35),
        decreases drawing.len() - i,
    {
        lights.push(drawing[i] == 35);
        i = i + 1;
    }
    proof {
        assert(lights@ =~= lights_of(drawing@));
    }
    let (buttons_str, joltages_str) = match split_once_pair(rest.as_slice(), 32, 123) {
        Some(parts) => parts,
        None => {
            return None;
        },
    };
    let words = split_whitespace(buttons_str.as_slice());
    let mut buttons: Vec<Button> = Vec::new();
    let mut b: usize = 0;
    while b < words.len()
        invariant
            b <= words.len(),
            buttons@.len() == b,
            forall|k: int| 0 <= k < b ==> (#[trigger] buttons@[k])@ == button_of(views(words@)[k]),
        decreases words.len() - b,
    {
        let opened = trim_start_matches(words[b].as_slice(), 40);
        let inside = trim_end_matches(opened.as_slice(), 41);
        proof {
            assert(views(words@)[b as int] == words[b as int]@);
        }
        buttons.push(parse_indices(inside.as_slice()));
        b = b + 1;
    }
    let listed = trim_end_matches(joltages_str.as_slice(), 125);
    let joltages = parse_indices(listed.as_slice());
    proof {
        assert(lists_of(buttons@) =~= Seq::new(
            words_of(buttons_str@).len(),
            |k: int| button_of(words_of(buttons_str@)[k]),
        ));
    }
    Some(Machine { lights, buttons, joltages })
}

/// The machines of a list are what the readings say.
pub open spec fn readings_of(machines: Seq<Machine>) -> Seq<Reading> {
    Seq::new(machines.len(), |i: int| machines[i].reading())
}

/// Reads the machines of an input text, one a line.
pub fn parse_machines(input: &[u8]) -> (r: Option<Vec<Machine>>)
    ensures
        match r {
            Some(machines) => machines_of(lines_of(input@)) == Some(readings_of(machines@)),
            None => machines_of(lines_of(input@)).is_none(),
        },
{
    let rows = lines(input);
    let mut machines: Vec<Machine> = Vec::new();
    let mut i: usize = 0;
    while i < rows.len()
        invariant
            i <= rows.len(),
            views(rows@) == lines_of(input@),
            machines_of(views(rows@).take(i as int)) == Some(readings_of(machines@)),
        decreases rows.len() - i,
    {
        proof {
            let upto = views(rows@).take(i + 1);
            assert(upto.drop_last() == views(rows@).take(i as int));
            assert(upto.last() == rows[i as int]@);
        }
        let ghost before = readings_of(machines@);
        match parse_machine(rows[i].as_slice()) {
            Some(machine) => {
                machines.push(machine);
                proof {
                    assert(readings_of(machines@) =~= before.push(machines@.last().reading()));
                }
            },
            None => {
                proof {
                    lemma_machines_prefix(views(rows@), i + 1);
                }
                return None;
            },
        }
        i = i + 1;
    }
    proof {
        assert(views(rows@).take(rows.len() as int) == views(rows@));
    }
    Some(machines)
}

/// Every machine of the list fits a 64-bit state.
pub open spec fn all_fit(machines: Seq<Reading>) -> bool {
    forall|i: int| 0 <= i < machines.len() ==> fits(#[trigger] machines[i])
}

/// Calls rayon's `par_iter`, `map` and `collect` to run `init_steps` on
/// every machine, on as many threads as rayon sees fit. By rayon's
/// documentation `collect` on a vector's parallel iterator keeps the order of
/// the items, so the result holds what `init_steps` returns for each machine,
/// in the order of the machines.
#[verifier::external_body]
fn par_init_steps(machines: &Vec<Machine>) -> (steps: Vec<usize>)
    requires
        forall|i: int| 0 <= i < machines@.len() ==> (#[trigger] machines@[i]).wf(),
    ensures
        steps@.len() == machines@.len(),
        forall|i: int| 0 <= i < steps@.len() ==> (#[trigger] steps@[i]) == machines@[i].fewest(),
{
    machines.par_iter().map(Machine::init_steps).collect()
}

/// What the presses come to once the solver has spoken: the least sum that
/// it read off where the constraints can be met, the greatest number where
/// they cannot or the solver gave up. `None` where the constraints can be
/// met and yet no sum could be read, or the sum does not fit the machine
/// word.
pub open spec fn presses_of(verdict: Verdict, reading: Option<u64>) -> Option<usize> {
    match verdict {
        Verdict::Sat => match reading {
            Some(value) => if value <= usize::MAX {
                Some(value as usize)
            } else {
                None
            },
            None => None,
        },
        _ => Some(usize::MAX),
    }
}

/// Turns the solver's verdict and the sum it read off into the number of
/// presses.
pub fn presses_from(verdict: Verdict, reading: Option<u64>) -> (presses: Option<usize>)
    ensures
        presses == presses_of(verdict, reading),
{
    match verdict {
        Verdict::Sat => match reading {
            Some(value) => if value <= usize::MAX as u64 {
                Some(value as usize)
            } else {
                None
            },
            None => None,
        },
        _ => Some(usize::MAX),
    }
}

/// The positions below `b_end` of the buttons that name the counter `i`.
pub open spec fn picks_for(lists: Seq<Seq<usize>>, i: usize, b_end: nat) -> Seq<usize>
    decreases b_end,
{
    if b_end == 0 {
        Seq::empty()
    } else {
        let rest = picks_for(lists, i, (b_end - 1) as nat);
        if lists[b_end - 1].contains(i) {
            rest.push((b_end - 1) as usize)
        } else {
            rest
        }
    }
}

/// The positions `0..n`.
pub open spec fn all_picks(n: nat) -> Seq<usize> {
    Seq::new(n, |k: int| k as usize)
}

/// Every joltage fits 32 bits, as the solver's numbers must.
pub open spec fn modest(joltages: Seq<usize>) -> bool {
    forall|i: int| 0 <= i < joltages.len() ==> (#[trigger] joltages[i]) <= u32::MAX
}

impl Machine {
    /// Whether the button at position `b` names the counter `i`.
    pub fn button_names(&self, b: usize, i: usize) -> (r: bool)
        requires
            b < self.buttons@.len(),
        ensures
            r == self.buttons@[b as int]@.contains(i),
    {
        let button = &self.buttons[b];
        let mut k: usize = 0;
        while k < button.len()
            invariant
                k <= button.len(),
                b < self.buttons@.len(),
                button@ == self.buttons@[b as int]@,
                forall|m: int| 0 <= m < k ==> button@[m] != i,
            decreases button.len() - k,
        {
            if button[k] == i {
                proof {
                    assert(button@[k as int] == i);
                }
                return true;
            }
            k = k + 1;
        }
        false
    }

    /// The positions of the buttons that raise the counter `i`, ascending.
    pub fn buttons_for(&self, i: usize) -> (picks: Vec<usize>)
        ensures
            picks@ == picks_for(lists_of(self.buttons@), i, self.buttons@.len()),
            forall|k: int| 0 <= k < picks@.len() ==> (#[trigger] picks@[k]) < self.buttons@.len(),
    {
        let mut picks: Vec<usize> = Vec::new();
        let mut b: usize = 0;
        while b < self.buttons.len()
            invariant
                b <= self.buttons.len(),
                picks@ == picks_for(lists_of(self.buttons@), i, b as nat),
                forall|k: int| 0 <= k < picks@.len() ==> (#[trigger] picks@[k]) < b,
            decreases self.buttons.len() - b,
        {
            if self.button_names(b, i) {
                picks.push(b);
            }
            b = b + 1;
        }
        picks
    }

    /// Whether every joltage fits 32 bits.
    pub fn is_modest(&self) -> (r: bool)
        ensures
            r == modest(self.joltages@),
    {
        let mut i: usize = 0;
        while i < self.joltages.len()
            invariant
                i <= self.joltages.len(),
                forall|k: int| 0 <= k < i ==> (#[trigger] self.joltages@[k]) <= u32::MAX,
            decreases self.joltages.len() - i,
        {
            if self.joltages[i] > u32::MAX as usize {
                return false;
            }
            i = i + 1;
        }
        true
    }

    /// The fewest presses that bring every counter to its joltage, as the
    /// outside solver finds them: every button is pressed a number of
    /// times that is not negative, every counter gets the sum of the
    /// presses of the buttons that name it, and the sum of all presses is
    /// to be least. What comes back is the solver's word; `presses_from`
    /// says how it is read. `None` at once where a joltage does not fit 32
    /// bits.
    pub fn joltages(&self) -> (presses: Option<usize>)
        ensures
            !modest(self.joltages@) ==> presses.is_none(),
    {
        if !self.is_modest() {
            return None;
        }
        let optimizer = new_optimizer();
        let mut buttons: Vec<Term> = Vec::new();
        let mut everyone: Vec<usize> = Vec::new();
        let mut btn: usize = 0;
        while btn < self.buttons.len()
            invariant
                btn <= self.buttons.len(),
                buttons@.len() == btn,
                everyone@ == all_picks(btn as nat),
            decreases self.buttons.len() - btn,
        {
            let button = fresh_button(btn);
            let floor = at_least(&button, 0);
            add_constraint(&optimizer, &floor);
            buttons.push(button);
            everyone.push(btn);
            proof {
                assert(everyone@ =~= all_picks((btn + 1) as nat));
            }
            btn = btn + 1;
        }
        let mut i: usize = 0;
        while i < self.joltages.len()
            invariant
                i <= self.joltages.len(),
                buttons@.len() == self.buttons@.len(),
                modest(self.joltages@),
            decreases self.joltages.len() - i,
        {
            let needed_buttons = self.buttons_for(i);
            let raised = sum_of_picked(&buttons, &needed_buttons);
            let wanted = equals_number(&raised, self.joltages[i] as u32);
            add_constraint(&optimizer, &wanted);
            i = i + 1;
        }
        let button_sum = sum_of_picked(&buttons, &everyone);
        minimize(&optimizer, &button_sum);
        let verdict = check(&optimizer);
        let reading: Option<u64> = match verdict {
            Verdict::Sat => match model_of(&optimizer) {
                Some(model) => match evaluate(&model, &button_sum) {
                    Some(value) => as_number(&value),
                    None => None,
                },
                None => None,
            },
            _ => None,
        };
        presses_from(verdict, reading)
    }
}

/// The answer to part one. `None` where a line writes no machine, a
/// machine's lights do not fit a 64-bit state, or the total does not fit
/// the machine word.
pub open spec fn lights_answer(input: Seq<u8>) -> Option<SolvedValue> {
    match machines_of(lines_of(input)) {
        Some(machines) => if all_fit(machines) && total_fewest(machines) <= usize::MAX {
            Some(SolvedValue::Usize(total_fewest(machines) as usize))
        } else {
            None
        },
        None => None,
    }
}

pub struct Day;

impl Solution for Day {
    open spec fn part1_answers(&self, input: Seq<u8>, answer: Option<SolvedValue>) -> bool {
        answer == lights_answer(input)
    }

    /// Part two answers the sum of what the outside solver finds for each
    /// machine, as `joltage_answers` lays down.
    open spec fn part2_answers(&self, input: Seq<u8>, answer: Option<SolvedValue>) -> bool {
        joltage_answers(lines_of(input), answer)
    }

    fn part1(&self, input: &str) -> (res: Option<SolvedValue>) {
        let machines = match parse_machines(input.as_bytes()) {
            Some(machines) => machines,
            None => {
                return None;
            },
        };
        let ghost readings = readings_of(machines@);
        let mut m: usize = 0;
        while m < machines.len()
            invariant
                m <= machines.len(),
                readings == readings_of(machines@),
                machines_of(lines_of(input.spec_bytes())) == Some(readings),
                forall|k: int| 0 <= k < m ==> (#[trigger] machines@[k]).wf(),
            decreases machines.len() - m,
        {
            if !machines[m].is_wf() {
                proof {
                    machines@[m as int].lemma_reading();
                    assert(!fits(readings[m as int]));
                }
                return None;
            }
            m = m + 1;
        }
        let steps = par_init_steps(&machines);
        proof {
            assert forall|k: int| 0 <= k < readings.len() implies fits(#[trigger] readings[k]) by {
                machines@[k].lemma_reading();
            }
        }
        let mut sum: usize = 0;
        let mut i: usize = 0;
        while i < steps.len()
            invariant
                i <= steps.len(),
                steps@.len() == machines@.len(),
                readings == readings_of(machines@),
                machines_of(lines_of(input.spec_bytes())) == Some(readings),
                all_fit(readings),
                forall|k: int|
                    0 <= k < steps@.len() ==> (#[trigger] steps@[k]) == machines@[k].fewest(),
                sum == total_fewest(readings.take(i as int)),
            decreases steps.len() - i,
        {
            proof {
                assert(readings.take(i + 1).drop_last() == readings.take(i as int));
                assert(readings.take(i + 1).last() == readings[i as int]);
                machines@[i as int].lemma_reading();
                lemma_total_fewest_prefix(readings, i + 1);
            }
            match sum.checked_add(steps[i]) {
                Some(next) => {
                    sum = next;
                },
                None => {
                    return None;
                },
            }
            i = i + 1;
        }
        proof {
            assert(readings.take(steps.len() as int) == readings);
        }
        Some(SolvedValue::Usize(sum))
    }

    fn part2(&self, input: &str) -> (res: Option<SolvedValue>) {
        let machines = match parse_machines(input.as_bytes()) {
            Some(machines) => machines,
            None => {
                return None;
            },
        };
        let ghost readings = readings_of(machines@);
        let mut found: Vec<Option<usize>> = Vec::new();
        let mut i: usize = 0;
        while i < machines.len()
            invariant
                i <= machines.len(),
                readings == readings_of(machines@),
                found@.len() == i,
                forall|k: int|
                    0 <= k < i && !modest(readings[k].2) ==> (#[trigger] found@[k]).is_none(),
            decreases machines.len() - i,
        {
            let presses = machines[i].joltages();
            proof {
                assert(readings[i as int].2 == machines@[i as int].joltages@);
            }
            found.push(presses);
            i = i + 1;
        }
        let res = match total_presses(&found) {
            Some(sum) => Some(SolvedValue::Usize(sum)),
            None => None,
        };
        proof {
            assert(each_answers(readings, found@));
            assert(exists|f: Seq<Option<usize>>|
                #[trigger] each_answers(readings, f) && res == crate::solution::answer_of(
                    total_presses_of(f),
                ));
            assert(machines_of(lines_of(input.spec_bytes())) matches Some(m) && m == readings);
        }
        res
    }
}

/// The sum of the presses of all machines. `None` where some machine has
/// no number of presses.
pub open spec fn total_presses_of(found: Seq<Option<usize>>) -> Option<nat>
    decreases found.len(),
{
    if found.len() == 0 {
        Some(0)
    } else {
        match (total_presses_of(found.drop_last()), found.last()) {
            (Some(sum), Some(presses)) => Some(sum + presses as nat),
            _ => None,
        }
    }
}

/// `found` holds what may come back for each of the machines: something
/// for every machine, and nothing for a machine with a joltage that does
/// not fit 32 bits. What comes back for any other machine is the solver's
/// word.
pub open spec fn each_answers(machines: Seq<Reading>, found: Seq<Option<usize>>) -> bool {
    &&& found.len() == machines.len()
    &&& forall|i: int|
        0 <= i < found.len() && !modest(machines[i].2) ==> (#[trigger] found[i]).is_none()
}

/// What part two may answer on the lines of an input text: nothing where a
/// line writes no machine; else the sum of what comes back for each
/// machine, and nothing where a machine has no number of presses or the
/// sum does not fit the machine word.
pub open spec fn joltage_answers(lines: Seq<Seq<u8>>, answer: Option<SolvedValue>) -> bool {
    match machines_of(lines) {
        Some(machines) => exists|found: Seq<Option<usize>>|
            #[trigger] each_answers(machines, found) && answer == crate::solution::answer_of(
                total_presses_of(found),
            ),
        None => answer.is_none(),
    }
}

/// A sum that is undefined for the first machines is so for all, and one
/// that is defined is no less than that of the first.
pub proof fn lemma_total_presses_prefix(found: Seq<Option<usize>>, k: int)
    requires
        0 <= k <= found.len(),
    ensures
        total_presses_of(found.take(k)).is_none() ==> total_presses_of(found).is_none(),
        total_presses_of(found) matches Some(all) ==> total_presses_of(found.take(k)) matches Some(
            sum,
        ) && sum <= all,
    decreases found.len(),
{
    if k < found.len() {
        assert(found.drop_last().take(k) == found.take(k));
        lemma_total_presses_prefix(found.drop_last(), k);
    } else {
        assert(found.take(k) == found);
    }
}

/// Adds up the presses that were found for the machines. `None` where
/// nothing was found for some machine, or the sum does not fit the machine
/// word.
pub fn total_presses(found: &Vec<Option<usize>>) -> (r: Option<usize>)
    ensures
        r == match total_presses_of(found@) {
            Some(sum) => if sum <= usize::MAX {
                Some(sum as usize)
            } else {
                None
            },
            None => None,
        },
{
    let mut sum: usize = 0;
    let mut i: usize = 0;
    while i < found.len()
        invariant
            i <= found.len(),
            total_presses_of(found@.take(i as int)) == Some(sum as nat),
        decreases found.len() - i,
    {
        proof {
            assert(found@.take(i + 1).drop_last() == found@.take(i as int));
            assert(found@.take(i + 1).last() == found@[i as int]);
            lemma_total_presses_prefix(found@, i + 1);
        }
        let next = match found[i] {
            Some(presses) => sum.checked_add(presses),
            None => {
                return None;
            },
        };
        match next {
            Some(next) => {
                sum = next;
            },
            None => {
                return None;
            },
        }
        i = i + 1;
    }
    proof {
        assert(found@.take(found.len() as int) == found@);
    }
    Some(sum)
}

/// Where the solver has no say: without machines the answer is zero, and
/// with a machine whose joltage does not fit 32 bits there is none.
pub proof fn lemma_joltage_answers_decided(lines: Seq<Seq<u8>>, answer: Option<SolvedValue>)
    requires
        joltage_answers(lines, answer),
    ensures
        machines_of(lines).is_none() ==> answer.is_none(),
        machines_of(lines) matches Some(machines) && machines.len() == 0 ==> answer == Some(
            SolvedValue::Usize(0),
        ),
        machines_of(lines) matches Some(machines) && (exists|i: int|
            0 <= i < machines.len() && !modest(#[trigger] machines[i].2)) ==> answer.is_none(),
{
    match machines_of(lines) {
        Some(machines) => {
            let found = choose|found: Seq<Option<usize>>|
                #[trigger] each_answers(machines, found) && answer == crate::solution::answer_of(
                    total_presses_of(found),
                );
            if exists|i: int| 0 <= i < machines.len() && !modest(#[trigger] machines[i].2) {
                let i = choose|i: int| 0 <= i < machines.len() && !modest(#[trigger] machines[i].2);
                assert(found[i].is_none());
                assert(found.take(i + 1).last() == found[i]);
                assert(total_presses_of(found.take(i + 1)).is_none());
                lemma_total_presses_prefix(found, i + 1);
            }
        },
        None => {},
    }
}

} // verus!
