//! Day 8: junction boxes in space, wired together closest pair first.
//!
//! Part one asks for the product of the sizes of the three largest circuits
//! after a fixed number of connections; part two for the product of the x
//! coordinates of the two boxes whose connection joins everything.

use vstd::prelude::*;
use vstd::string::StringSliceAdditionalSpecFns;
use crate::linkage::edge::{all_in_reach, pair_count};
use crate::linkage::engine::{bridge_edge, distinct_points, partition_after, Engine};
use crate::linkage::partition::cluster_sizes;
use crate::linkage::point::Point;
use crate::linkage::snapshot::{product_of_top_three, top_three_product};
use crate::solution::{Solution, SolvedValue};
use crate::text::{lines, lines_of, number_of, parse_u64, pieces, split_on, views};

verus! {

/// The coordinate written by `s`: a number of the machine word.
pub open spec fn coordinate_of(s: Seq<u8>) -> Option<usize> {
    match number_of(s) {
        Some(v) => if v <= usize::MAX {
            Some(v as usize)
        } else {
            None
        },
        None => None,
    }
}

/// The point written by a line `x,y,z`. `None` for any other line.
pub open spec fn point_of(line: Seq<u8>) -> Option<Point> {
    let parts = pieces(line, 44);
    if parts.len() == 3 {
        match (coordinate_of(parts[0]), coordinate_of(parts[1]), coordinate_of(parts[2])) {
            (Some(x), Some(y), Some(z)) => Some(Point { x, y, z }),
            _ => None,
        }
    } else {
        None
    }
}

/// The points written by the lines that write one, in order.
pub open spec fn points_of_lines(lines: Seq<Seq<u8>>) -> Seq<Point>
    decreases lines.len(),
{
    if lines.len() == 0 {
        Seq::empty()
    } else {
        let rest = points_of_lines(lines.drop_last());
        match point_of(lines.last()) {
            Some(p) => rest.push(p),
            None => rest,
        }
    }
}

/// The points of an input text. Lines that write no point are passed over.
pub open spec fn points_of(input: Seq<u8>) -> Seq<Point> {
    points_of_lines(lines_of(input))
}

/// The number of connections to make before the snapshot: ten for the
/// worked example of twenty boxes, a thousand otherwise.
pub open spec fn snapshot_steps(boxes: nat) -> nat {
    if boxes == 20 {
        10
    } else {
        1000
    }
}

/// The answer to part one. `None` where there is no box, where two boxes
/// lie too far apart for their distance to be computed, where there are
/// fewer pairs of boxes than connections to make, or fewer than three
/// circuits at the snapshot.
pub open spec fn snapshot_answer(input: Seq<u8>) -> Option<SolvedValue> {
    let points = points_of(input);
    let distinct = distinct_points(points);
    let steps = snapshot_steps(points.len());
    if points.len() == 0 || !all_in_reach(distinct) || steps > pair_count(distinct.len()) {
        None
    } else {
        let sizes = cluster_sizes(partition_after(distinct, steps));
        if sizes.len() < 3 || top_three_product(sizes) > usize::MAX {
            None
        } else {
            Some(SolvedValue::Usize(top_three_product(sizes) as usize))
        }
    }
}

/// The answer to part two. `None` where there are fewer than two boxes,
/// where two boxes lie too far apart for their distance to be computed, or
/// the product does not fit the machine word.
pub open spec fn bridge_answer(input: Seq<u8>) -> Option<SolvedValue> {
    let distinct = distinct_points(points_of(input));
    if distinct.len() < 2 || !all_in_reach(distinct) {
        None
    } else {
        let edge = bridge_edge(distinct);
        let product = distinct[edge.a as int].x * distinct[edge.b as int].x;
        if product <= usize::MAX {
            Some(SolvedValue::Usize(product as usize))
        } else {
            None
        }
    }
}

/// Reads one coordinate.
pub fn parse_coordinate(bytes: &[u8]) -> (r: Option<usize>)
    ensures
        r == coordinate_of(bytes@),
{
    match parse_u64(bytes) {
        Some(v) => if v <= usize::MAX as u64 {
            Some(v as usize)
        } else {
            None
        },
        None => None,
    }
}

/// Reads the point that a line `x,y,z` writes.
pub fn parse_point(line: &[u8]) -> (r: Option<Point>)
    ensures
        r == point_of(line@),
{
    let parts = split_on(line, 44);
    if parts.len() != 3 {
        return None;
    }
    proof {
        assert(views(parts@)[0] == parts[0]@);
        assert(views(parts@)[1] == parts[1]@);
        assert(views(parts@)[2] == parts[2]@);
    }
    let x = parse_coordinate(parts[0].as_slice());
    let y = parse_coordinate(parts[1].as_slice());
    let z = parse_coordinate(parts[2].as_slice());
    match (x, y, z) {
        (Some(x), Some(y), Some(z)) => Some(Point { x, y, z }),
        _ => None,
    }
}

/// Reads the points of an input text, passing over malformed lines.
pub fn parse_input(input: &[u8]) -> (points: Vec<Point>)
    ensures
        points@ == points_of(input@),
{
    let rows = lines(input);
    let mut points: Vec<Point> = Vec::new();
    let mut i: usize = 0;
    while i < rows.len()
        invariant
            i <= rows.len(),
            points@ == points_of_lines(views(rows@).take(i as int)),
        decreases rows.len() - i,
    {
        proof {
            let upto = views(rows@).take(i + 1);
            assert(upto.drop_last() == views(rows@).take(i as int));
            assert(upto.last() == rows[i as int]@);
        }
        match parse_point(rows[i].as_slice()) {
            Some(p) => {
                points.push(p);
            },
            None => {},
        }
        i = i + 1;
    }
    proof {
        assert(views(rows@).take(rows.len() as int) == views(rows@));
    }
    points
}

pub struct Day;

impl Solution for Day {
    open spec fn part1_answers(&self, input: Seq<u8>, answer: Option<SolvedValue>) -> bool {
        answer == snapshot_answer(input)
    }

    open spec fn part2_answers(&self, input: Seq<u8>, answer: Option<SolvedValue>) -> bool {
        answer == bridge_answer(input)
    }

    fn part1(&self, input: &str) -> (res: Option<SolvedValue>) {
        let positions = parse_input(input.as_bytes());
        let max_iter: usize = if positions.len() == 20 {
            10
        } else {
            1000
        };
        let mut engine = match Engine::build(positions.as_slice()) {
            Ok(engine) => engine,
            Err(_) => {
                return None;
            },
        };
        proof {
            crate::linkage::edge::lemma_edge_queue_properties(engine.points());
        }
        let sizes = match engine.run_bounded(max_iter) {
            Ok(sizes) => sizes,
            Err(_) => {
                return None;
            },
        };
        if sizes.len() < 3 {
            return None;
        }
        match product_of_top_three(sizes.as_slice()) {
            Some(product) => Some(SolvedValue::Usize(product)),
            None => None,
        }
    }

    fn part2(&self, input: &str) -> (res: Option<SolvedValue>) {
        let positions = parse_input(input.as_bytes());
        let mut engine = match Engine::build(positions.as_slice()) {
            Ok(engine) => engine,
            Err(_) => {
                return None;
            },
        };
        let edge = match engine.run_to_full_connectivity() {
            Ok(edge) => edge,
            Err(_) => {
                return None;
            },
        };
        match (engine.point(edge.a), engine.point(edge.b)) {
            (Some(a), Some(b)) => {
                assert(a.x * b.x <= 0xffff_ffff_ffff_ffff * 0xffff_ffff_ffff_ffff)
                    by (nonlinear_arith)
                    requires
                        a.x <= 0xffff_ffff_ffff_ffff,
                        b.x <= 0xffff_ffff_ffff_ffff,
                ;
                let product: u128 = a.x as u128 * b.x as u128;
                if product <= usize::MAX as u128 {
                    Some(SolvedValue::Usize(product as usize))
                } else {
                    None
                }
            },
            _ => None,
        }
    }
}

} // verus!
