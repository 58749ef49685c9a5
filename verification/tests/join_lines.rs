use osmgraph::coords::Coord;
use osmgraph::join_lines::{collapse_degree_2, collapse_loops, KeyedLineString};

/// Quantize floating-point meters to the crate's fixed-point centimeters.
fn c(x: f64, y: f64) -> Coord {
    Coord { x: (x * 100.0) as i64, y: (y * 100.0) as i64 }
}

fn line(pts: &[(f64, f64)], ids: Vec<(&'static str, bool)>) -> KeyedLineString<&'static str> {
    KeyedLineString {
        linestring: pts.iter().map(|&(x, y)| c(x, y)).collect(),
        ids,
        key: 0,
    }
}

#[test]
fn test_easy() {
    let input = vec![
        line(&[(0., 0.), (0., 5.)], vec![("r1", true)]),
        line(&[(0., 5.), (0., 10.)], vec![("r2", true)]),
    ];
    let output = collapse_degree_2(input);
    assert_eq!(1, output.len());
    assert_eq!(
        output[0].linestring,
        vec![c(0., 0.), c(0., 5.), c(0., 10.)]
    );
    assert_eq!(output[0].ids, vec![("r1", true), ("r2", true)]);
}

#[test]
fn test_loop() {
    let make_input = || {
        vec![
            line(&[(0., 0.), (0., 5.)], vec![("r1", true)]),
            line(&[(0., 5.), (0., 0.)], vec![("r2", true)]),
        ]
    };

    {
        let output = collapse_degree_2(make_input());
        // There should be no change
        assert_eq!(2, output.len());
    }

    {
        let output = collapse_loops(make_input());
        assert_eq!(1, output.len());
        // Depending on traversal ordering, two outputs are possible
        let case1 = output[0].linestring == vec![c(0., 0.), c(0., 5.), c(0., 0.)];
        let case2 = output[0].linestring == vec![c(0., 5.), c(0., 0.), c(0., 5.)];

        if case1 {
            assert_eq!(output[0].ids, vec![("r1", true), ("r2", true)]);
        } else if case2 {
            assert_eq!(output[0].ids, vec![("r2", true), ("r1", true)]);
        } else {
            panic!("loop didn't merge: {:?}", output[0].linestring);
        }
    }
}

#[test]
fn chain_collapses_to_one() {
    // Four segments end-to-end, the middle two written backwards, so two
    // direction flags must flip.
    let input = vec![
        line(&[(0., 0.), (1., 0.)], vec![("a", true)]),
        line(&[(2., 0.), (1., 0.)], vec![("b", true)]),
        line(&[(3., 0.), (2., 0.)], vec![("c", true)]),
        line(&[(3., 0.), (4., 0.)], vec![("d", true)]),
    ];
    let output = collapse_degree_2(input);
    assert_eq!(1, output.len());
    let merged = &output[0];
    assert_eq!(merged.linestring.len(), 5);
    assert_eq!(merged.ids.len(), 4);
    // Every underlying segment survives exactly once.
    let mut names: Vec<&str> = merged.ids.iter().map(|p| p.0).collect();
    names.sort();
    assert_eq!(names, vec!["a", "b", "c", "d"]);
    // The geometry is one straight run over all five points, in one of the
    // two walk directions.
    let forward = vec![c(0., 0.), c(1., 0.), c(2., 0.), c(3., 0.), c(4., 0.)];
    let backward: Vec<Coord> = forward.iter().rev().cloned().collect();
    assert!(merged.linestring == forward || merged.linestring == backward);
    // Rerunning the pass on its own output changes nothing.
    let again = collapse_degree_2(output);
    assert_eq!(1, again.len());
    assert_eq!(again[0].linestring.len(), 5);
    assert_eq!(again[0].ids.len(), 4);
}

#[test]
fn different_keys_never_merge() {
    let mut a = line(&[(0., 0.), (0., 5.)], vec![("r1", true)]);
    let mut b = line(&[(0., 5.), (0., 10.)], vec![("r2", true)]);
    a.key = 1;
    b.key = 2;
    let output = collapse_degree_2(vec![a, b]);
    assert_eq!(2, output.len());
}

#[test]
fn quantization_under_one_centimeter_merges() {
    // The endpoints differ by 4 millimeters: the same centimeter cell.
    let input = vec![
        line(&[(0., 0.), (1., 0.)], vec![("a", true)]),
        line(&[(1.004, 0.), (2., 0.)], vec![("b", true)]),
    ];
    let output = collapse_degree_2(input);
    assert_eq!(1, output.len());
}

#[test]
fn quantization_one_centimeter_apart_never_merges() {
    let input = vec![
        line(&[(0., 0.), (1., 0.)], vec![("a", true)]),
        line(&[(1.01, 0.), (2., 0.)], vec![("b", true)]),
    ];
    let output = collapse_degree_2(input);
    assert_eq!(2, output.len());
}

#[test]
fn quantization_truncates_rather_than_rounds() {
    // 0.996 and 1.0 are 4 millimeters apart but truncate into different
    // centimeter cells (99 and 100): a known precision artifact, kept as is.
    let input = vec![
        line(&[(0., 0.), (0.996, 0.)], vec![("a", true)]),
        line(&[(1.0, 0.), (2., 0.)], vec![("b", true)]),
    ];
    let output = collapse_degree_2(input);
    assert_eq!(2, output.len());
}

#[test]
fn loops_survive_collapse_then_close() {
    // A triangle plus a spur: the triangle's free edges chain-merge, and the
    // final ring only closes in the loop pass.
    let input = vec![
        line(&[(0., 0.), (1., 0.)], vec![("ab", true)]),
        line(&[(1., 0.), (1., 1.)], vec![("bc", true)]),
        line(&[(1., 1.), (0., 0.)], vec![("ca", true)]),
    ];
    let chained = collapse_degree_2(input);
    assert_eq!(2, chained.len());
    let closed = collapse_loops(chained);
    assert_eq!(1, closed.len());
    assert_eq!(closed[0].ids.len(), 3);
    let first = closed[0].linestring.first().unwrap();
    let last = closed[0].linestring.last().unwrap();
    assert_eq!(first, last);
}
