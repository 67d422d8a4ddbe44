//! Day 11: devices wired to one another, and the paths that lead through
//! them.
//!
//! Each line names a device and the devices that its outputs lead to. Part
//! one counts the paths from `you` to `out`; part two the paths from `svr`
//! to `out` that pass `fft` and then `dac`.

use vstd::prelude::*;
use vstd::string::StringSliceAdditionalSpecFns;
use crate::solution::{answer_of, solved, Solution, SolvedValue};
use crate::text::{halves_at_pair, lines, lines_of, split_once_pair, split_whitespace, views, words_of};

verus! {

/// A device and where its outputs lead.
#[derive(Debug, PartialEq, Eq)]
pub struct Device {
    pub name: Vec<u8>,
    pub outputs: Vec<Vec<u8>>,
}

/// A device as a value: its name and the names that its outputs lead to.
pub type Wire = (Seq<u8>, Seq<Seq<u8>>);

/// The devices of a list as values.
pub open spec fn wires_of(devices: Seq<Device>) -> Seq<Wire> {
    Seq::new(devices.len(), |i: int| (devices[i].name@, views(devices[i].outputs@)))
}

/// The position of the first device among the first `k_end` that has the
/// given name. `None` where none has.
pub open spec fn find_name(wires: Seq<Wire>, name: Seq<u8>, k_end: nat) -> Option<int>
    decreases k_end,
{
    if k_end == 0 {
        None
    } else {
        match find_name(wires, name, (k_end - 1) as nat) {
            Some(i) => Some(i),
            None => if wires[k_end - 1].0 == name {
                Some(k_end - 1)
            } else {
                None
            },
        }
    }
}

/// No two devices have one name.
pub open spec fn distinct_names(wires: Seq<Wire>) -> bool {
    forall|i: int, j: int|
        0 <= i < j < wires.len() ==> (#[trigger] wires[i]).0 != (#[trigger] wires[j]).0
}

/// What `find_name` finds is a device of that name, and where it finds
/// none there is none.
pub proof fn lemma_find_name(wires: Seq<Wire>, name: Seq<u8>, k_end: nat)
    requires
        k_end <= wires.len(),
    ensures
        match find_name(wires, name, k_end) {
            Some(i) => 0 <= i < k_end && wires[i].0 == name && forall|j: int|
                0 <= j < i ==> (#[trigger] wires[j]).0 != name,
            None => forall|j: int| 0 <= j < k_end ==> (#[trigger] wires[j]).0 != name,
        },
    decreases k_end,
{
    if k_end > 0 {
        lemma_find_name(wires, name, (k_end - 1) as nat);
    }
}

/// Among distinct names a device is found where it stands.
pub proof fn lemma_find_own(wires: Seq<Wire>, i: int)
    requires
        distinct_names(wires),
        0 <= i < wires.len(),
    ensures
        find_name(wires, wires[i].0, wires.len()) == Some(i),
{
    lemma_find_name(wires, wires[i].0, wires.len());
    match find_name(wires, wires[i].0, wires.len()) {
        Some(j) => {
            if j < i {
                assert(wires[j].0 != wires[i].0);
            } else if i < j {
                assert(wires[i].0 != wires[j].0);
            }
        },
        None => {
            assert(wires[i].0 != wires[i].0);
        },
    }
}

/// Where the outputs of the device of the given name lead. Nowhere for a
/// name that no device has.
pub open spec fn outputs_at(wires: Seq<Wire>, name: Seq<u8>) -> Seq<Seq<u8>> {
    match find_name(wires, name, wires.len()) {
        Some(i) => wires[i].1,
        None => Seq::empty(),
    }
}

/// The number of walks of exactly `k` steps from `from` that end at `goal`
/// and do not touch it before.
pub open spec fn walks(wires: Seq<Wire>, goal: Seq<u8>, from: Seq<u8>, k: nat) -> nat
    decreases k, 0nat,
{
    if k == 0 {
        if from == goal {
            1
        } else {
            0
        }
    } else if from == goal {
        0
    } else {
        let outputs = outputs_at(wires, from);
        sum_walks(wires, goal, outputs, (k - 1) as nat, outputs.len())
    }
}

/// The number of walks of exactly `k` steps to `goal` from the first
/// `j_end` of `outputs`, an output counted as often as it is listed.
pub open spec fn sum_walks(
    wires: Seq<Wire>,
    goal: Seq<u8>,
    outputs: Seq<Seq<u8>>,
    k: nat,
    j_end: nat,
) -> nat
    decreases k, j_end + 1,
{
    if j_end == 0 {
        0
    } else {
        sum_walks(wires, goal, outputs, k, (j_end - 1) as nat) + walks(
            wires,
            goal,
            outputs[j_end - 1],
            k,
        )
    }
}

/// Some walk of `k` steps leaves `from` and keeps clear of `goal` all the
/// way but for its last place.
pub open spec fn live(wires: Seq<Wire>, goal: Seq<u8>, from: Seq<u8>, k: nat) -> bool
    decreases k, 0nat,
{
    if from == goal {
        false
    } else if k == 0 {
        true
    } else {
        let outputs = outputs_at(wires, from);
        any_live(wires, goal, outputs, (k - 1) as nat, outputs.len())
    }
}

/// Some walk of `k` steps that keeps clear of `goal` leaves one of the
/// first `j_end` of `outputs`.
pub open spec fn any_live(
    wires: Seq<Wire>,
    goal: Seq<u8>,
    outputs: Seq<Seq<u8>>,
    k: nat,
    j_end: nat,
) -> bool
    decreases k, j_end + 1,
{
    if j_end == 0 {
        false
    } else {
        any_live(wires, goal, outputs, k, (j_end - 1) as nat) || live(
            wires,
            goal,
            outputs[j_end - 1],
            k,
        )
    }
}

/// The number of walks of fewer than `k_end` steps from `from` that end at
/// `goal` and do not touch it before.
pub open spec fn walks_below(wires: Seq<Wire>, goal: Seq<u8>, from: Seq<u8>, k_end: nat) -> nat
    decreases k_end,
{
    if k_end == 0 {
        0
    } else {
        walks_below(wires, goal, from, (k_end - 1) as nat) + walks(
            wires,
            goal,
            from,
            (k_end - 1) as nat,
        )
    }
}

/// The number of paths from `start` to `goal`. A walk that keeps clear of
/// the goal for more steps than there are devices goes in a circle: then
/// the paths cannot be counted and there is `None`.
pub open spec fn paths_of(wires: Seq<Wire>, start: Seq<u8>, goal: Seq<u8>) -> Option<nat> {
    if live(wires, goal, start, wires.len() + 1) {
        None
    } else {
        Some(walks_below(wires, goal, start, wires.len() + 1))
    }
}

/// A count, or the greatest 64-bit number where it is that or more.
pub open spec fn capped(n: nat) -> u64 {
    if n >= u64::MAX {
        u64::MAX
    } else {
        n as u64
    }
}

/// Adds two capped counts.
pub fn capped_add(a: u64, b: u64) -> (r: u64)
    ensures
        forall|x: nat, y: nat| capped(x) == a && capped(y) == b ==> r == #[trigger] capped(x + y),
{
    match a.checked_add(b) {
        Some(sum) => sum,
        None => u64::MAX,
    }
}

/// Whether two names are the same.
pub fn same_name(a: &Vec<u8>, b: &[u8]) -> (r: bool)
    ensures
        r == (a@ == b@),
{
    if a.len() != b.len() {
        return false;
    }
    let mut i: usize = 0;
    while i < a.len()
        invariant
            i <= a.len(),
            a@.len() == b@.len(),
            forall|k: int| 0 <= k < i ==> a@[k] == b@[k],
        decreases a.len() - i,
    {
        if a[i] != b[i] {
            return false;
        }
        i = i + 1;
    }
    proof {
        assert(a@ =~= b@);
    }
    true
}

/// Finds the device of the given name.
pub fn find_device(devices: &Vec<Device>, name: &[u8]) -> (r: Option<usize>)
    ensures
        match r {
            Some(i) => find_name(wires_of(devices@), name@, devices@.len()) == Some(i as int),
            None => find_name(wires_of(devices@), name@, devices@.len()).is_none(),
        },
{
    let mut i: usize = 0;
    while i < devices.len()
        invariant
            i <= devices.len(),
            find_name(wires_of(devices@), name@, i as nat).is_none(),
        decreases devices.len() - i,
    {
        if same_name(&devices[i].name, name) {
            proof {
                lemma_found_stays(wires_of(devices@), name@, (i + 1) as nat, devices@.len());
            }
            return Some(i);
        }
        i = i + 1;
    }
    None
}

/// What is found among the first devices is found among all.
pub proof fn lemma_found_stays(wires: Seq<Wire>, name: Seq<u8>, k: nat, k_end: nat)
    requires
        k <= k_end,
        find_name(wires, name, k).is_some(),
    ensures
        find_name(wires, name, k_end) == find_name(wires, name, k),
    decreases k_end,
{
    if k < k_end {
        lemma_found_stays(wires, name, k, (k_end - 1) as nat);
    }
}

/// The wiring with the device `name` leading to `outputs`: in place of an
/// earlier device of that name, or after all others.
pub open spec fn rewired(wires: Seq<Wire>, name: Seq<u8>, outputs: Seq<Seq<u8>>) -> Seq<Wire> {
    match find_name(wires, name, wires.len()) {
        Some(i) => wires.update(i, (name, outputs)),
        None => wires.push((name, outputs)),
    }
}

/// The device that a line `name: output output ...` writes. `None` for a
/// line without `: `.
pub open spec fn wire_of(line: Seq<u8>) -> Option<Wire> {
    match halves_at_pair(line, 58, 32) {
        Some(parts) => Some((parts.0, words_of(parts.1))),
        None => None,
    }
}

/// The wiring that the lines write. A later line for a name replaces an
/// earlier one. `None` where some line writes no device.
pub open spec fn wiring_of(lines: Seq<Seq<u8>>) -> Option<Seq<Wire>>
    decreases lines.len(),
{
    if lines.len() == 0 {
        Some(Seq::empty())
    } else {
        match (wiring_of(lines.drop_last()), wire_of(lines.last())) {
            (Some(rest), Some(wire)) => Some(rewired(rest, wire.0, wire.1)),
            _ => None,
        }
    }
}

/// Where the lines up to some place write no wiring, all of them write
/// none.
pub proof fn lemma_wiring_prefix(lines: Seq<Seq<u8>>, k: int)
    requires
        0 <= k <= lines.len(),
        wiring_of(lines.take(k)).is_none(),
    ensures
        wiring_of(lines).is_none(),
    decreases lines.len(),
{
    if k < lines.len() {
        assert(lines.drop_last().take(k) == lines.take(k));
        lemma_wiring_prefix(lines.drop_last(), k);
    } else {
        assert(lines.take(k) == lines);
    }
}

/// Rewiring keeps the names distinct.
pub proof fn lemma_rewired_distinct(wires: Seq<Wire>, name: Seq<u8>, outputs: Seq<Seq<u8>>)
    requires
        distinct_names(wires),
    ensures
        distinct_names(rewired(wires, name, outputs)),
{
    lemma_find_name(wires, name, wires.len());
    let next = rewired(wires, name, outputs);
    assert forall|i: int, j: int| 0 <= i < j < next.len() implies (#[trigger] next[i]).0 != (
    #[trigger] next[j]).0 by {
        match find_name(wires, name, wires.len()) {
            Some(at) => {
                assert(wires[at].0 == name);
                assert(next[i].0 == wires[i].0);
                assert(next[j].0 == wires[j].0);
                assert(wires[i].0 != wires[j].0);
            },
            None => {
                if j < wires.len() {
                    assert(wires[i].0 != wires[j].0);
                } else {
                    assert(wires[i].0 != name);
                }
            },
        }
    }
}

/// Reads the wiring of an input text.
pub fn parse_input(input: &[u8]) -> (r: Option<Vec<Device>>)
    ensures
        match r {
            Some(devices) => wiring_of(lines_of(input@)) == Some(wires_of(devices@))
                && distinct_names(wires_of(devices@)),
            None => wiring_of(lines_of(input@)).is_none(),
        },
{
    let rows = lines(input);
    let mut devices: Vec<Device> = Vec::new();
    let mut i: usize = 0;
    while i < rows.len()
        invariant
            i <= rows.len(),
            views(rows@) == lines_of(input@),
            wiring_of(views(rows@).take(i as int)) == Some(wires_of(devices@)),
            distinct_names(wires_of(devices@)),
        decreases rows.len() - i,
    {
        proof {
            let upto = views(rows@).take(i + 1);
            assert(upto.drop_last() == views(rows@).take(i as int));
            assert(upto.last() == rows[i as int]@);
        }
        let (name, rest) = match split_once_pair(rows[i].as_slice(), 58, 32) {
            Some(parts) => parts,
            None => {
                proof {
                    lemma_wiring_prefix(views(rows@), i + 1);
                }
                return None;
            },
        };
        let outputs = split_whitespace(rest.as_slice());
        let ghost before = wires_of(devices@);
        proof {
            lemma_rewired_distinct(before, name@, views(outputs@));
            lemma_find_name(before, name@, before.len());
        }
        match find_device(&devices, name.as_slice()) {
            Some(at) => {
                devices.set(at, Device { name, outputs });
                proof {
                    assert(wires_of(devices@) =~= before.update(
                        at as int,
                        (devices@[at as int].name@, views(devices@[at as int].outputs@)),
                    ));
                }
            },
            None => {
                devices.push(Device { name, outputs });
                proof {
                    assert(wires_of(devices@) =~= before.push(
                        (devices@.last().name@, views(devices@.last().outputs@)),
                    ));
                }
            },
        }
        i = i + 1;
    }
    proof {
        assert(views(rows@).take(rows.len() as int) == views(rows@));
    }
    Some(devices)
}

/// Where an output leads: to the device at some position, or to a name
/// that no device has.
#[derive(Debug, PartialEq, Eq, Clone, Copy, Structural)]
pub struct Link {
    pub device: Option<usize>,
    pub goal: bool,
}

/// The link is that of the name `to`: it says where the device of that
/// name stands, and whether the name is the goal.
pub open spec fn links_to(link: Link, wires: Seq<Wire>, goal: Seq<u8>, to: Seq<u8>) -> bool {
    &&& link.goal == (to == goal)
    &&& match link.device {
        Some(t) => find_name(wires, to, wires.len()) == Some(t as int),
        None => find_name(wires, to, wires.len()).is_none(),
    }
}

/// The links are those of all outputs of all devices.
pub open spec fn linked(links: Seq<Vec<Link>>, wires: Seq<Wire>, goal: Seq<u8>) -> bool {
    &&& links.len() == wires.len()
    &&& forall|i: int|
        0 <= i < links.len() ==> (#[trigger] links[i])@.len() == wires[i].1.len()
    &&& forall|i: int, j: int|
        0 <= i < links.len() && 0 <= j < links[i]@.len() ==> links_to(
            #[trigger] links[i]@[j],
            wires,
            goal,
            wires[i].1[j],
        )
}

/// Finds where the name `to` leads.
pub fn link_of(devices: &Vec<Device>, goal: &[u8], to: &Vec<u8>) -> (link: Link)
    ensures
        links_to(link, wires_of(devices@), goal@, to@),
{
    Link { device: find_device(devices, to.as_slice()), goal: same_name(to, goal) }
}

/// Finds where every output of every device leads.
pub fn resolve(devices: &Vec<Device>, goal: &[u8]) -> (links: Vec<Vec<Link>>)
    ensures
        linked(links@, wires_of(devices@), goal@),
{
    let ghost wires = wires_of(devices@);
    let mut links: Vec<Vec<Link>> = Vec::new();
    let mut i: usize = 0;
    while i < devices.len()
        invariant
            i <= devices.len(),
            wires == wires_of(devices@),
            links@.len() == i,
            forall|a: int| 0 <= a < i ==> (#[trigger] links@[a])@.len() == wires[a].1.len(),
            forall|a: int, j: int|
                0 <= a < i && 0 <= j < links@[a]@.len() ==> links_to(
                    #[trigger] links@[a]@[j],
                    wires,
                    goal@,
                    wires[a].1[j],
                ),
        decreases devices.len() - i,
    {
        let outputs = &devices[i].outputs;
        let mut row: Vec<Link> = Vec::new();
        let mut j: usize = 0;
        while j < outputs.len()
            invariant
                j <= outputs.len(),
                i < devices.len(),
                wires == wires_of(devices@),
                outputs@ == devices@[i as int].outputs@,
                row@.len() == j,
                forall|b: int|
                    0 <= b < j ==> links_to(#[trigger] row@[b], wires, goal@, wires[i as int].1[b]),
            decreases outputs.len() - j,
        {
            let link = link_of(devices, goal, &outputs[j]);
            proof {
                assert(wires[i as int].1[j as int] == outputs@[j as int]@);
            }
            row.push(link);
            j = j + 1;
        }
        links.push(row);
        i = i + 1;
    }
    links
}

/// The counts and flags of one level: for every device, the capped number
/// of walks of `k` steps to the goal, and whether a walk of `k` steps keeps
/// clear of the goal.
pub open spec fn level(
    wires: Seq<Wire>,
    goal: Seq<u8>,
    counts: Seq<u64>,
    flags: Seq<bool>,
    k: nat,
) -> bool {
    &&& counts.len() == wires.len()
    &&& flags.len() == wires.len()
    &&& forall|i: int|
        0 <= i < wires.len() ==> (#[trigger] counts[i]) == capped(walks(wires, goal, wires[i].0, k))
    &&& forall|i: int|
        0 <= i < wires.len() ==> (#[trigger] flags[i]) == live(wires, goal, wires[i].0, k)
}

/// A name that no device has leads nowhere: no walk of one step or more
/// leaves it.
pub proof fn lemma_dead_end(wires: Seq<Wire>, goal: Seq<u8>, name: Seq<u8>, k: nat)
    requires
        find_name(wires, name, wires.len()).is_none(),
        k >= 1,
    ensures
        walks(wires, goal, name, k) == 0,
        !live(wires, goal, name, k),
{
    assert(outputs_at(wires, name) == Seq::<Seq<u8>>::empty());
}

/// The capped number of walks of `k` steps from where a link leads, and
/// whether a walk of `k` steps from there keeps clear of the goal.
pub fn through(link: Link, counts: &Vec<u64>, flags: &Vec<bool>, first: bool) -> (r: (u64, bool))
    requires
        counts@.len() == flags@.len(),
        link.device matches Some(t) ==> t < counts@.len(),
    ensures
        forall|wires: Seq<Wire>, goal: Seq<u8>, to: Seq<u8>, k: nat|
            #![trigger walks(wires, goal, to, k)]
            links_to(link, wires, goal, to) && level(wires, goal, counts@, flags@, k) && first == (k
                == 0) ==> r.0 == capped(walks(wires, goal, to, k)) && r.1 == live(
                wires,
                goal,
                to,
                k,
            ),
{
    let r = match link.device {
        Some(t) => (counts[t], flags[t]),
        None => if first {
            (
                if link.goal {
                    1u64
                } else {
                    0u64
                },
                !link.goal,
            )
        } else {
            (0u64, false)
        },
    };
    proof {
        assert forall|wires: Seq<Wire>, goal: Seq<u8>, to: Seq<u8>, k: nat|
            #![trigger walks(wires, goal, to, k)]
            links_to(link, wires, goal, to) && level(wires, goal, counts@, flags@, k) && first == (k
                == 0) implies r.0 == capped(walks(wires, goal, to, k)) && r.1 == live(
            wires,
            goal,
            to,
            k,
        ) by {
            lemma_find_name(wires, to, wires.len());
            match link.device {
                Some(t) => {
                    assert(wires[t as int].0 == to);
                },
                None => {
                    if k >= 1 {
                        lemma_dead_end(wires, goal, to, k);
                    }
                },
            }
        }
    }
    r
}

/// The number of paths from `start` to `goal`, where they can be counted and
/// their number is less than the greatest 64-bit number.
pub open spec fn countable(wires: Seq<Wire>, start: Seq<u8>, goal: Seq<u8>) -> Option<u64> {
    match paths_of(wires, start, goal) {
        Some(n) => if n < u64::MAX {
            Some(n as u64)
        } else {
            None
        },
        None => None,
    }
}

/// Counts the paths from `start` to `goal`. `None` where the wiring goes in
/// a circle that can be reached from `start` without passing `goal`, or the
/// count does not fit 64 bits.
pub fn get_paths_count_to_out(devices: &Vec<Device>, start: &[u8], goal: &[u8]) -> (r: Option<u64>)
    requires
        distinct_names(wires_of(devices@)),
    ensures
        r == countable(wires_of(devices@), start@, goal@),
{
    let ghost wires = wires_of(devices@);
    let n: usize = devices.len();
    let from = match find_device(devices, start) {
        Some(t) => t,
        None => {
            let here = start.len() == goal.len() && same_slices(start, goal);
            proof {
                lemma_stranger(wires, goal@, start@, wires.len() + 1);
            }
            return Some(
                if here {
                    1
                } else {
                    0
                },
            );
        },
    };
    proof {
        lemma_find_name(wires, start@, wires.len());
    }
    let links = resolve(devices, goal);
    let mut is_goal: Vec<bool> = Vec::new();
    let mut counts: Vec<u64> = Vec::new();
    let mut flags: Vec<bool> = Vec::new();
    let mut i: usize = 0;
    while i < n
        invariant
            i <= n,
            n == devices@.len(),
            wires == wires_of(devices@),
            is_goal@.len() == i,
            counts@.len() == i,
            flags@.len() == i,
            forall|a: int| 0 <= a < i ==> (#[trigger] is_goal@[a]) == (wires[a].0 == goal@),
            forall|a: int|
                0 <= a < i ==> (#[trigger] counts@[a]) == capped(walks(wires, goal@, wires[a].0, 0)),
            forall|a: int| 0 <= a < i ==> (#[trigger] flags@[a]) == live(wires, goal@, wires[a].0, 0),
        decreases n - i,
    {
        let here = same_name(&devices[i].name, goal);
        is_goal.push(here);
        counts.push(
            if here {
                1
            } else {
                0
            },
        );
        flags.push(!here);
        i = i + 1;
    }
    let mut total: u64 = counts[from];
    let mut k: usize = 0;
    proof {
        assert(walks_below(wires, goal@, start@, 0) == 0);
        assert(walks_below(wires, goal@, start@, 1) == walks_below(wires, goal@, start@, 0)
            + walks(wires, goal@, start@, 0));
    }
    while k < n
        invariant
            k <= n,
            n == devices@.len(),
            from < n,
            wires == wires_of(devices@),
            wires[from as int].0 == start@,
            distinct_names(wires),
            linked(links@, wires, goal@),
            is_goal@.len() == n,
            forall|a: int| 0 <= a < n ==> (#[trigger] is_goal@[a]) == (wires[a].0 == goal@),
            level(wires, goal@, counts@, flags@, k as nat),
            total == capped(walks_below(wires, goal@, start@, (k + 1) as nat)),
        decreases n - k,
    {
        let (next_counts, next_flags) = next_level(devices, &links, &is_goal, &counts, &flags, k == 0, Ghost(goal@), Ghost(k as nat));
        counts = next_counts;
        flags = next_flags;
        proof {
            assert(walks_below(wires, goal@, start@, (k + 2) as nat) == walks_below(
                wires,
                goal@,
                start@,
                (k + 1) as nat,
            ) + walks(wires, goal@, start@, (k + 1) as nat));
        }
        total = capped_add(total, counts[from]);
        k = k + 1;
    }
    let (_, last_flags) = next_level(devices, &links, &is_goal, &counts, &flags, n == 0, Ghost(goal@), Ghost(n as nat));
    if last_flags[from] {
        return None;
    }
    if total == u64::MAX {
        None
    } else {
        Some(total)
    }
}

/// Whether two stretches of bytes are the same.
pub fn same_slices(a: &[u8], b: &[u8]) -> (r: bool)
    requires
        a@.len() == b@.len(),
    ensures
        r == (a@ == b@),
{
    let mut i: usize = 0;
    while i < a.len()
        invariant
            i <= a.len(),
            a@.len() == b@.len(),
            forall|k: int| 0 <= k < i ==> a@[k] == b@[k],
        decreases a.len() - i,
    {
        if a[i] != b[i] {
            return false;
        }
        i = i + 1;
    }
    proof {
        assert(a@ =~= b@);
    }
    true
}

/// From a name that no device has there is one walk to itself and none to
/// any other place.
pub proof fn lemma_stranger(wires: Seq<Wire>, goal: Seq<u8>, name: Seq<u8>, k_end: nat)
    requires
        find_name(wires, name, wires.len()).is_none(),
        k_end >= 1,
    ensures
        walks_below(wires, goal, name, k_end) == if name == goal {
            1nat
        } else {
            0nat
        },
        !live(wires, goal, name, k_end),
    decreases k_end,
{
    if k_end > 1 {
        lemma_stranger(wires, goal, name, (k_end - 1) as nat);
        lemma_dead_end(wires, goal, name, (k_end - 1) as nat);
    } else {
        assert(walks_below(wires, goal, name, 0) == 0);
    }
    lemma_dead_end(wires, goal, name, k_end);
}

/// Computes the counts and flags of the level after `k` from those of
/// `k`.
fn next_level(
    devices: &Vec<Device>,
    links: &Vec<Vec<Link>>,
    is_goal: &Vec<bool>,
    counts: &Vec<u64>,
    flags: &Vec<bool>,
    first: bool,
    Ghost(goal): Ghost<Seq<u8>>,
    Ghost(k): Ghost<nat>,
) -> (next: (Vec<u64>, Vec<bool>))
    requires
        distinct_names(wires_of(devices@)),
        linked(links@, wires_of(devices@), goal),
        is_goal@.len() == devices@.len(),
        forall|a: int|
            0 <= a < devices@.len() ==> (#[trigger] is_goal@[a]) == (wires_of(devices@)[a].0
                == goal),
        level(wires_of(devices@), goal, counts@, flags@, k),
        first == (k == 0),
    ensures
        level(wires_of(devices@), goal, next.0@, next.1@, k + 1),
{
    let ghost wires = wires_of(devices@);
    let n: usize = devices.len();
    let mut next_counts: Vec<u64> = Vec::new();
    let mut next_flags: Vec<bool> = Vec::new();
    let mut i: usize = 0;
    while i < n
        invariant
            i <= n,
            n == devices@.len(),
            wires == wires_of(devices@),
            distinct_names(wires),
            linked(links@, wires, goal),
            is_goal@.len() == n,
            forall|a: int| 0 <= a < n ==> (#[trigger] is_goal@[a]) == (wires[a].0 == goal),
            level(wires, goal, counts@, flags@, k),
            first == (k == 0),
            next_counts@.len() == i,
            next_flags@.len() == i,
            forall|a: int|
                0 <= a < i ==> (#[trigger] next_counts@[a]) == capped(
                    walks(wires, goal, wires[a].0, k + 1),
                ),
            forall|a: int|
                0 <= a < i ==> (#[trigger] next_flags@[a]) == live(wires, goal, wires[a].0, k + 1),
        decreases n - i,
    {
        let ghost outputs = wires[i as int].1;
        proof {
            lemma_find_own(wires, i as int);
            assert(outputs_at(wires, wires[i as int].0) == outputs);
        }
        if is_goal[i] {
            next_counts.push(0);
            next_flags.push(false);
        } else {
            let row = &links[i];
            let mut sum: u64 = 0;
            let mut any: bool = false;
            let mut j: usize = 0;
            while j < row.len()
                invariant
                    j <= row.len(),
                    i < n,
                    n == devices@.len(),
                    wires == wires_of(devices@),
                    linked(links@, wires, goal),
                    row@ == links@[i as int]@,
                    outputs == wires[i as int].1,
                    level(wires, goal, counts@, flags@, k),
                    first == (k == 0),
                    sum == capped(sum_walks(wires, goal, outputs, k, j as nat)),
                    any == any_live(wires, goal, outputs, k, j as nat),
                decreases row.len() - j,
            {
                let link: Link = row[j];
                proof {
                    assert(links_to(links@[i as int]@[j as int], wires, goal, outputs[j as int]));
                    lemma_find_name(wires, outputs[j as int], wires.len());
                }
                let (count, flag) = through(link, counts, flags, first);
                proof {
                    assert(count == capped(walks(wires, goal, outputs[j as int], k)));
                }
                sum = capped_add(sum, count);
                any = any || flag;
                j = j + 1;
            }
            next_counts.push(sum);
            next_flags.push(any);
        }
        i = i + 1;
    }
    (next_counts, next_flags)
}

/// The name `you`.
pub open spec fn you() -> Seq<u8> {
    seq![121u8, 111u8, 117u8]
}

/// The name `out`.
pub open spec fn out() -> Seq<u8> {
    seq![111u8, 117u8, 116u8]
}

/// The name `svr`.
pub open spec fn svr() -> Seq<u8> {
    seq![115u8, 118u8, 114u8]
}

/// The name `fft`.
pub open spec fn fft() -> Seq<u8> {
    seq![102u8, 102u8, 116u8]
}

/// The name `dac`.
pub open spec fn dac() -> Seq<u8> {
    seq![100u8, 97u8, 99u8]
}

/// The answer to part one: the number of paths from `you` to `out`.
/// `None` where a line writes no device or the paths cannot be counted.
pub open spec fn paths_answer(input: Seq<u8>) -> Option<SolvedValue> {
    match wiring_of(lines_of(input)) {
        Some(wires) => match countable(wires, you(), out()) {
            Some(n) => answer_of(Some(n as nat)),
            None => None,
        },
        None => None,
    }
}

/// The answer to part two: the number of paths from `svr` to `fft`, times
/// that from `fft` to `dac`, times that from `dac` to `out`. `None` where a
/// line writes no device, paths cannot be counted, or the product does not
/// fit.
pub open spec fn passing_answer(input: Seq<u8>) -> Option<SolvedValue> {
    match wiring_of(lines_of(input)) {
        Some(wires) => match (
            countable(wires, svr(), fft()),
            countable(wires, fft(), dac()),
            countable(wires, dac(), out()),
        ) {
            (Some(a), Some(b), Some(c)) => if a * b * c <= u64::MAX {
                answer_of(Some((a * b * c) as nat))
            } else {
                None
            },
            _ => None,
        },
        None => None,
    }
}

/// Multiplies three counts. `None` where the product does not fit 64 bits.
pub fn product3(a: u64, b: u64, c: u64) -> (r: Option<u64>)
    ensures
        r == if a * b * c <= u64::MAX {
            Some((a * b * c) as u64)
        } else {
            None
        },
{
    if a == 0 || b == 0 || c == 0 {
        assert(a * b * c == 0) by (nonlinear_arith)
            requires
                a == 0 || b == 0 || c == 0,
        ;
        return Some(0);
    }
    match a.checked_mul(b) {
        Some(ab) => ab.checked_mul(c),
        None => {
            assert(a * b * c > u64::MAX) by (nonlinear_arith)
                requires
                    a * b > u64::MAX,
                    c >= 1,
            ;
            None
        },
    }
}

pub struct Day;

impl Solution for Day {
    open spec fn part1_answers(&self, input: Seq<u8>, answer: Option<SolvedValue>) -> bool {
        answer == paths_answer(input)
    }

    open spec fn part2_answers(&self, input: Seq<u8>, answer: Option<SolvedValue>) -> bool {
        answer == passing_answer(input)
    }

    fn part1(&self, input: &str) -> (res: Option<SolvedValue>) {
        let machines = match parse_input(input.as_bytes()) {
            Some(machines) => machines,
            None => {
                return None;
            },
        };
        let you: Vec<u8> = vec![121u8, 111u8, 117u8];
        let out: Vec<u8> = vec![111u8, 117u8, 116u8];
        proof {
            assert(you@ =~= self::you());
            assert(out@ =~= self::out());
        }
        match get_paths_count_to_out(&machines, you.as_slice(), out.as_slice()) {
            Some(res) => solved(res),
            None => None,
        }
    }

    fn part2(&self, input: &str) -> (res: Option<SolvedValue>) {
        let machines = match parse_input(input.as_bytes()) {
            Some(machines) => machines,
            None => {
                return None;
            },
        };
        let svr: Vec<u8> = vec![115u8, 118u8, 114u8];
        let fft: Vec<u8> = vec![102u8, 102u8, 116u8];
        let dac: Vec<u8> = vec![100u8, 97u8, 99u8];
        let out: Vec<u8> = vec![111u8, 117u8, 116u8];
        proof {
            assert(svr@ =~= self::svr());
            assert(fft@ =~= self::fft());
            assert(dac@ =~= self::dac());
            assert(out@ =~= self::out());
        }
        let svr_fft = get_paths_count_to_out(&machines, svr.as_slice(), fft.as_slice());
        let fft_dac = get_paths_count_to_out(&machines, fft.as_slice(), dac.as_slice());
        let dac_out = get_paths_count_to_out(&machines, dac.as_slice(), out.as_slice());
        match (svr_fft, fft_dac, dac_out) {
            (Some(a), Some(b), Some(c)) => match product3(a, b, c) {
                Some(product) => solved(product),
                None => None,
            },
            _ => None,
        }
    }
}

} // verus!
