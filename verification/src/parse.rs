//! The line-oriented edge format: a line `e <a> <b>` records an edge
//! between vertices `a` and `b`; every other line is ignored.

use vstd::prelude::*;

use crate::graph::Graph;

verus! {

broadcast use vstd::seq_lib::group_seq_properties;

/// ASCII decimal digit.
pub open spec fn is_digit(b: u8) -> bool {
    48 <= b && b <= 57
}

/// First position at or after `from` that does not hold a digit.
pub open spec fn digit_run_end(s: Seq<u8>, from: int) -> int
    decreases s.len() - from,
{
    if from < 0 || from >= s.len() || !is_digit(s[from]) {
        from
    } else {
        digit_run_end(s, from + 1)
    }
}

/// The number written by a run of decimal digits.
pub open spec fn digits_val(s: Seq<u8>) -> int
    decreases s.len(),
{
    if s.len() == 0 {
        0
    } else {
        digits_val(s.drop_last()) * 10 + (s.last() - 48)
    }
}

/// A line that records an edge: the marker `e `, a digit run, one space,
/// and a second digit run; anything may follow.
pub open spec fn edge_line_shape(s: Seq<u8>) -> bool {
    let e1 = digit_run_end(s, 2);
    &&& s.len() >= 2
    &&& s[0] == 101
    &&& s[1] == 32
    &&& e1 > 2
    &&& e1 < s.len()
    &&& s[e1] == 32
    &&& digit_run_end(s, e1 + 1) > e1 + 1
}

/// The first vertex number on an edge line.
pub open spec fn edge_line_first(s: Seq<u8>) -> int {
    digits_val(s.subrange(2, digit_run_end(s, 2)))
}

/// The second vertex number on an edge line.
pub open spec fn edge_line_second(s: Seq<u8>) -> int {
    let e1 = digit_run_end(s, 2);
    digits_val(s.subrange(e1 + 1, digit_run_end(s, e1 + 1)))
}

/// What one input line denotes.
#[derive(Debug, PartialEq, Eq, Structural)]
pub enum ParsedLine {
    /// An edge between two in-range vertex identifiers.
    Edge(u16, u16),
    /// A line that does not match the edge shape; skipped.
    Ignored,
    /// An edge line whose number does not fit a 16-bit identifier.
    Invalid,
}

/// Reads the digit run starting at `start`: returns where it ends and the
/// number it writes, saturated to `0x10000` once it can no longer fit a
/// 16-bit identifier.
fn scan_number(s: &Vec<u8>, start: usize) -> (res: (usize, u32))
    requires
        start <= s@.len(),
    ensures
        res.0 == digit_run_end(s@, start as int),
        start <= res.0 <= s@.len(),
        digits_val(s@.subrange(start as int, res.0 as int)) <= 0xFFFF ==> res.1 == digits_val(
            s@.subrange(start as int, res.0 as int),
        ),
        digits_val(s@.subrange(start as int, res.0 as int)) > 0xFFFF ==> res.1 == 0x10000,
{
    let mut i: usize = start;
    let mut acc: u32 = 0;
    proof {
        assert(s@.subrange(start as int, start as int) =~= Seq::<u8>::empty());
    }
    while i < s.len() && 48 <= s[i] && s[i] <= 57
        invariant
            start <= i <= s@.len(),
            digit_run_end(s@, start as int) == digit_run_end(s@, i as int),
            ({
                let v = digits_val(s@.subrange(start as int, i as int));
                (v <= 0xFFFF && acc == v) || (v > 0xFFFF && acc == 0x10000)
            }),
        decreases s@.len() - i,
    {
        let d: u8 = s[i] - 48;
        proof {
            let pre = s@.subrange(start as int, i as int);
            assert(s@.subrange(start as int, i + 1) =~= pre.push(s@[i as int]));
            assert(pre.push(s@[i as int]).drop_last() =~= pre);
            assert(digits_val(s@.subrange(start as int, i + 1)) == digits_val(pre) * 10 + (
            s@[i as int] - 48));
            assert(digit_run_end(s@, i as int) == digit_run_end(s@, i + 1));
        }
        if acc <= 0xFFFF {
            acc = acc * 10 + d as u32;
            if acc > 0xFFFF {
                acc = 0x10000;
            }
        }
        i += 1;
    }
    proof {
        assert(digit_run_end(s@, i as int) == i as int);
    }
    (i, acc)
}

/// Classifies one input line.  A line is an edge exactly when it starts
/// with the marker `e ` followed by two space-separated numbers; an edge
/// whose number exceeds the 16-bit identifier range is rejected rather
/// than taken.
pub fn parse_line(line: &Vec<u8>) -> (r: ParsedLine)
    ensures
        !edge_line_shape(line@) ==> r == ParsedLine::Ignored,
        edge_line_shape(line@) && (edge_line_first(line@) > 0xFFFF || edge_line_second(line@)
            > 0xFFFF) ==> r == ParsedLine::Invalid,
        edge_line_shape(line@) && edge_line_first(line@) <= 0xFFFF && edge_line_second(line@)
            <= 0xFFFF ==> r == ParsedLine::Edge(
            edge_line_first(line@) as u16,
            edge_line_second(line@) as u16,
        ),
{
    if line.len() < 2 {
        return ParsedLine::Ignored;
    }
    if line[0] != 101 || line[1] != 32 {
        return ParsedLine::Ignored;
    }
    let first = scan_number(line, 2);
    let e1: usize = first.0;
    let v1: u32 = first.1;
    if e1 == 2 {
        return ParsedLine::Ignored;
    }
    if e1 >= line.len() {
        return ParsedLine::Ignored;
    }
    if line[e1] != 32 {
        return ParsedLine::Ignored;
    }
    let second = scan_number(line, e1 + 1);
    let e2: usize = second.0;
    let v2: u32 = second.1;
    if e2 == e1 + 1 {
        return ParsedLine::Ignored;
    }
    if v1 > 0xFFFF || v2 > 0xFFFF {
        return ParsedLine::Invalid;
    }
    ParsedLine::Edge(v1 as u16, v2 as u16)
}

/// Digit runs end within the line.
proof fn lemma_dre_bounds(s: Seq<u8>, from: int)
    requires
        0 <= from <= s.len(),
    ensures
        from <= digit_run_end(s, from) <= s.len(),
    decreases s.len() - from,
{
    if from < s.len() && is_digit(s[from]) {
        lemma_dre_bounds(s, from + 1);
    }
}

/// Every position inside a digit run holds a digit.
proof fn lemma_dre_digits(s: Seq<u8>, from: int, k: int)
    requires
        0 <= from <= k < digit_run_end(s, from),
        from <= s.len(),
    ensures
        is_digit(s[k]),
    decreases k - from,
{
    if k > from {
        lemma_dre_digits(s, from + 1, k);
    }
}

/// A run of digits writes a number that is not negative.
proof fn lemma_digits_val_nonneg(s: Seq<u8>)
    requires
        forall|k: int| 0 <= k < s.len() ==> is_digit(#[trigger] s[k]),
    ensures
        digits_val(s) >= 0,
    decreases s.len(),
{
    if s.len() > 0 {
        assert forall|k: int| 0 <= k < s.drop_last().len() implies is_digit(
            #[trigger] s.drop_last()[k],
        ) by {
            assert(s.drop_last()[k] == s[k]);
        }
        lemma_digits_val_nonneg(s.drop_last());
    }
}

/// Both numbers on an edge line are not negative.
proof fn lemma_edge_vals_nonneg(s: Seq<u8>)
    requires
        edge_line_shape(s),
    ensures
        edge_line_first(s) >= 0,
        edge_line_second(s) >= 0,
{
    let e1 = digit_run_end(s, 2);
    lemma_dre_bounds(s, 2);
    let r1 = s.subrange(2, e1);
    assert forall|k: int| 0 <= k < r1.len() implies is_digit(#[trigger] r1[k]) by {
        lemma_dre_digits(s, 2, k + 2);
    }
    lemma_digits_val_nonneg(r1);
    let e2 = digit_run_end(s, e1 + 1);
    lemma_dre_bounds(s, e1 + 1);
    let r2 = s.subrange(e1 + 1, e2);
    assert forall|k: int| 0 <= k < r2.len() implies is_digit(#[trigger] r2[k]) by {
        lemma_dre_digits(s, e1 + 1, k + e1 + 1);
    }
    lemma_digits_val_nonneg(r2);
}

/// Line `k` denotes the edge `(u, v)`, in that orientation.
pub open spec fn denotes_edge(lines: Seq<Seq<u8>>, u: u16, v: u16) -> bool {
    exists|k: int|
        0 <= k < lines.len() && edge_line_shape(#[trigger] lines[k]) && edge_line_first(lines[k])
            == u as int && edge_line_second(lines[k]) == v as int && edge_line_second(lines[k])
            <= 0xFFFF && edge_line_first(lines[k]) <= 0xFFFF
}

/// Some line is an edge line whose number exceeds the identifier range.
pub open spec fn has_bad_line(lines: Seq<Seq<u8>>) -> bool {
    exists|k: int|
        0 <= k < lines.len() && edge_line_shape(#[trigger] lines[k]) && (edge_line_first(lines[k])
            > 0xFFFF || edge_line_second(lines[k]) > 0xFFFF)
}

impl Graph {
    /// Builds the graph that a list of input lines describes, or nothing if
    /// some edge line carries an out-of-range identifier.
    pub fn from_lines(lines: &Vec<Vec<u8>>) -> (r: Option<Graph>)
        ensures
            r is None <==> has_bad_line(lines@.map_values(|l: Vec<u8>| l@)),
            r matches Some(g) ==> g.wf() && forall|u: u16, v: u16|
                g.edge(u, v) <==> u != v && (denotes_edge(
                    lines@.map_values(|l: Vec<u8>| l@),
                    u,
                    v,
                ) || denotes_edge(lines@.map_values(|l: Vec<u8>| l@), v, u)),
    {
        let ghost views = lines@.map_values(|l: Vec<u8>| l@);
        let mut edges: Vec<(u16, u16)> = Vec::new();
        let mut i: usize = 0;
        while i < lines.len()
            invariant
                views == lines@.map_values(|l: Vec<u8>| l@),
                i <= lines@.len(),
                !has_bad_line(views.subrange(0, i as int)),
                forall|u: u16, v: u16|
                    #![trigger denotes_edge(views.subrange(0, i as int), u, v)]
                    edges@.contains((u, v)) <==> denotes_edge(views.subrange(0, i as int), u, v),
            decreases lines@.len() - i,
        {
            proof {
                assert(views.subrange(0, i + 1) =~= views.subrange(0, i as int).push(
                    views[i as int],
                ));
            }
            let ghost pre = edges@;
            match parse_line(&lines[i]) {
                ParsedLine::Edge(a, b) => {
                    proof {
                        let lv = views[i as int];
                        assert(edge_line_shape(lv));
                        assert(edge_line_first(lv) <= 0xFFFF && edge_line_second(lv) <= 0xFFFF);
                        lemma_edge_vals_nonneg(lv);
                        assert(a as int == edge_line_first(lv));
                        assert(b as int == edge_line_second(lv));
                    }
                    edges.push((a, b));
                },
                ParsedLine::Ignored => {},
                ParsedLine::Invalid => {
                    proof {
                        assert(edge_line_shape(views[i as int]));
                        assert(has_bad_line(views)) by {
                            assert(edge_line_shape(views[i as int]) && (edge_line_first(
                                views[i as int],
                            ) > 0xFFFF || edge_line_second(views[i as int]) > 0xFFFF));
                        }
                    }
                    return None;
                },
            }
            proof {
                let now = views.subrange(0, i + 1);
                assert(!has_bad_line(now)) by {
                    if has_bad_line(now) {
                        let k = choose|k: int|
                            0 <= k < now.len() && edge_line_shape(#[trigger] now[k]) && (
                            edge_line_first(now[k]) > 0xFFFF || edge_line_second(now[k]) > 0xFFFF);
                        if k < i {
                            assert(views.subrange(0, i as int)[k] == now[k]);
                            assert(has_bad_line(views.subrange(0, i as int)));
                        } else {
                            assert(now[k] == views[i as int]);
                        }
                    }
                }
                assert forall|u: u16, v: u16|
                    edges@.contains((u, v)) <==> #[trigger] denotes_edge(now, u, v) by {
                    if edges@.contains((u, v)) {
                        let m = choose|m: int| 0 <= m < edges@.len() && edges@[m] == (u, v);
                        if m < pre.len() {
                            assert(pre.contains((u, v)));
                            assert(denotes_edge(views.subrange(0, i as int), u, v));
                            let k = choose|k: int|
                                0 <= k < i && edge_line_shape(
                                    #[trigger] views.subrange(0, i as int)[k],
                                ) && edge_line_first(views.subrange(0, i as int)[k]) == u as int
                                    && edge_line_second(views.subrange(0, i as int)[k])
                                    == v as int && edge_line_second(
                                    views.subrange(0, i as int)[k],
                                ) <= 0xFFFF && edge_line_first(views.subrange(0, i as int)[k])
                                    <= 0xFFFF;
                            assert(now[k] == views.subrange(0, i as int)[k]);
                            assert(edge_line_shape(now[k]));
                        } else {
                            assert(edges@[m] == edges@[edges@.len() - 1]);
                            assert(edge_line_shape(now[i as int]));
                        }
                    }
                    if denotes_edge(now, u, v) {
                        let k = choose|k: int|
                            0 <= k < now.len() && edge_line_shape(#[trigger] now[k])
                                && edge_line_first(now[k]) == u as int && edge_line_second(now[k])
                                == v as int && edge_line_second(now[k]) <= 0xFFFF
                                && edge_line_first(now[k]) <= 0xFFFF;
                        if k < i {
                            assert(views.subrange(0, i as int)[k] == now[k]);
                            assert(denotes_edge(views.subrange(0, i as int), u, v));
                            assert(pre.contains((u, v)));
                            let m = choose|m: int| 0 <= m < pre.len() && pre[m] == (u, v);
                            assert(edges@[m] == (u, v));
                        } else {
                            assert(now[k] == views[i as int]);
                            assert(edges@[edges@.len() - 1] == (u, v));
                        }
                    }
                }
            }
            i += 1;
        }
        proof {
            assert(views.subrange(0, views.len() as int) =~= views);
        }
        let g = Graph::build(&edges);
        proof {
            assert forall|u: u16, v: u16|
                g.edge(u, v) <==> u != v && (denotes_edge(views, u, v) || denotes_edge(
                    views,
                    v,
                    u,
                )) by {}
        }
        Some(g)
    }
}

} // verus!
