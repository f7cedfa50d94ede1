//! Parsers for two text formats of graphs.
//!
//! The edge-list format has a header line `p <name> <vertices> <edges>`,
//! comment lines `c <word>` and edge lines `<u> <v>`; the Rudy format has the
//! vertex count first on its first line and then lines `<u> <v> <weight>`.
//! Vertices are written from 1 and stored from 0; fields are separated by
//! single spaces.
use vstd::prelude::*;
use crate::graph::{empty_lists, with_edges, Graph};
use crate::text::{chars_of, lines, lines_of, parse_usize, split_chars, split_on, string_of, usize_of, lemma_split_len};

verus! {

/// A line of the edge-list format.
#[derive(PartialEq, Debug)]
pub enum ParsedLine<'a> {
    /// The header: vertex and edge count.
    Graph(usize, usize),
    /// An edge, with its ends counted from 0.
    Edge(usize, usize),
    /// A comment and its text.
    Comment(&'a str),
}

/// What a line of the edge-list format says, without the text of a comment.
#[derive(PartialEq, Eq, Clone, Copy, Debug, Structural)]
pub enum LineKind {
    Graph(usize, usize),
    Edge(usize, usize),
    Comment,
}

/// `t` is the one-character word `c`.
pub open spec fn is_word(t: Seq<char>, c: char) -> bool {
    t.len() == 1 && t[0] == c
}

/// What the line `l` of the edge-list format says, or `None` where it is not
/// one of its lines. A header has four fields, `p` first; a comment has two,
/// `c` first; an edge has two numbers from 1 up.
pub open spec fn line_kind(l: Seq<char>) -> Option<LineKind> {
    let t = split_on(l, ' ');
    if t.len() == 4 && is_word(t[0], 'p') {
        match (usize_of(t[2]), usize_of(t[3])) {
            (Some(n), Some(m)) => Some(LineKind::Graph(n, m)),
            _ => None,
        }
    } else if t.len() == 2 && is_word(t[0], 'c') {
        Some(LineKind::Comment)
    } else if t.len() == 2 {
        match (usize_of(t[0]), usize_of(t[1])) {
            (Some(x), Some(y)) => if x >= 1 && y >= 1 {
                Some(LineKind::Edge((x - 1) as usize, (y - 1) as usize))
            } else {
                None
            },
            _ => None,
        }
    } else {
        None
    }
}

/// The message for a line that the format does not have.
pub open spec fn unrecognized(l: Seq<char>) -> Seq<char> {
    "unrecognized line: '"@ + l + "'"@
}

/// The message for an edge line with an end that is not a vertex.
pub open spec fn out_of_range(l: Seq<char>) -> Seq<char> {
    "edge out of range: '"@ + l + "'"@
}

/// What the line `l` says, as [`line_kind`].
pub fn classify(l: &[char]) -> (r: Option<LineKind>)
    ensures
        r == line_kind(l@),
{
    let t = split_chars(l, ' ');
    let ghost s = split_on(l@, ' ');
    if t.len() == 4 && t[0].len() == 1 && t[0][0] == 'p' {
        assert(t@[2]@ == s[2] && t@[3]@ == s[3]);
        match (parse_usize(t[2].as_slice()), parse_usize(t[3].as_slice())) {
            (Some(n), Some(m)) => Some(LineKind::Graph(n, m)),
            _ => None,
        }
    } else if t.len() == 2 && t[0].len() == 1 && t[0][0] == 'c' {
        Some(LineKind::Comment)
    } else if t.len() == 2 {
        assert(t@[0]@ == s[0] && t@[1]@ == s[1]);
        match (parse_usize(t[0].as_slice()), parse_usize(t[1].as_slice())) {
            (Some(x), Some(y)) => if x >= 1 && y >= 1 {
                Some(LineKind::Edge(x - 1, y - 1))
            } else {
                None
            },
            _ => None,
        }
    } else {
        proof {
            if s.len() == 4 {
                assert(t@[0]@ == s[0]);
            }
        }
        None
    }
}

/// `prefix`, then `middle`, then a closing quote.
fn quoted(prefix: &str, middle: &str) -> (r: String)
    ensures
        r@ == prefix@ + middle@ + "'"@,
{
    let mut s = String::from_str(prefix);
    s.append(middle);
    s.append("'");
    s
}

/// Parses one line of the edge-list format; a comment keeps its text after
/// the leading `c `.
pub fn parse_line(line: &str) -> (r: Result<ParsedLine, String>)
    ensures
        match line_kind(line@) {
            Some(LineKind::Graph(n, m)) => r == Ok::<ParsedLine, String>(ParsedLine::Graph(n, m)),
            Some(LineKind::Edge(x, y)) => r == Ok::<ParsedLine, String>(ParsedLine::Edge(x, y)),
            Some(LineKind::Comment) => r matches Ok(ParsedLine::Comment(c)) && c@ == line@.subrange(
                2,
                line@.len() as int,
            ),
            None => r matches Err(e) && e@ == unrecognized(line@),
        },
{
    let chars = chars_of(line);
    match classify(chars.as_slice()) {
        Some(LineKind::Graph(n, m)) => Ok(ParsedLine::Graph(n, m)),
        Some(LineKind::Edge(x, y)) => Ok(ParsedLine::Edge(x, y)),
        Some(LineKind::Comment) => {
            let len = line.unicode_len();
            if len < 2 {
                proof {
                    assert(false) by {
                        lemma_split_len(line@, ' ');
                    }
                }
            }
            Ok(ParsedLine::Comment(line.substring_char(2, len)))
        },
        None => {
            proof {
                reveal_strlit("unrecognized line: '");
            }
            Err(quoted("unrecognized line: '", line))
        },
    }
}

/// The first of the lines `ls[0..k]` that the edge-list format does not have.
pub open spec fn first_unrecognized(ls: Seq<Seq<char>>, k: int) -> Option<int>
    decreases k,
{
    if k <= 0 {
        None
    } else {
        match first_unrecognized(ls, k - 1) {
            Some(i) => Some(i),
            None => if line_kind(ls[k - 1]) is None { Some(k - 1) } else { None },
        }
    }
}

/// The first header among the lines `ls[0..k]`.
pub open spec fn first_header(ls: Seq<Seq<char>>, k: int) -> Option<int>
    decreases k,
{
    if k <= 0 {
        None
    } else {
        match first_header(ls, k - 1) {
            Some(i) => Some(i),
            None => if line_kind(ls[k - 1]) matches Some(LineKind::Graph(_, _)) { Some(k - 1) } else { None },
        }
    }
}

/// The edges of the lines `ls[p + 1..k]`, in order.
pub open spec fn edges_after(ls: Seq<Seq<char>>, p: int, k: int) -> Seq<(usize, usize)>
    decreases k - p,
{
    if k <= p + 1 {
        Seq::empty()
    } else {
        let r = edges_after(ls, p, k - 1);
        match line_kind(ls[k - 1]) {
            Some(LineKind::Edge(x, y)) => r.push((x, y)),
            _ => r,
        }
    }
}

/// The first of the lines `ls[p + 1..k]` with an edge end that is not below
/// `n`.
pub open spec fn first_out_of_range(ls: Seq<Seq<char>>, p: int, n: usize, k: int) -> Option<int>
    decreases k - p,
{
    if k <= p + 1 {
        None
    } else {
        match first_out_of_range(ls, p, n, k - 1) {
            Some(i) => Some(i),
            None => match line_kind(ls[k - 1]) {
                Some(LineKind::Edge(x, y)) => if x >= n || y >= n { Some(k - 1) } else { None },
                _ => None,
            },
        }
    }
}

/// What the edge-list text `raw` gives: the vertex count of the first header
/// and the edges after it, or an error message. Edges before the header are
/// passed over, as are later headers.
pub open spec fn pace_outcome(raw: Seq<char>) -> Result<(usize, Seq<(usize, usize)>), Seq<char>> {
    let ls = lines_of(raw);
    let k = ls.len() as int;
    match first_unrecognized(ls, k) {
        Some(i) => Err(unrecognized(ls[i])),
        None => match first_header(ls, k) {
            None => Err("no p-line"@),
            Some(p) => match line_kind(ls[p]) {
                Some(LineKind::Graph(n, _)) => match first_out_of_range(ls, p, n, k) {
                    Some(i) => Err(out_of_range(ls[i])),
                    None => Ok((n, edges_after(ls, p, k))),
                },
                _ => Err("no p-line"@),
            },
        },
    }
}

/// Parses a graph in the edge-list format: every line must be a header, a
/// comment or an edge; the first header gives the vertex count, and the edges
/// after it are added in order.
pub fn parse_pace_graph(raw: &str) -> (r: Result<Graph, String>)
    ensures
        match pace_outcome(raw@) {
            Ok((n, es)) => r matches Ok(g) && g.wf() && g@ == with_edges(empty_lists(n as nat), es),
            Err(msg) => r matches Err(e) && e@ == msg,
        },
{
    let chars = chars_of(raw);
    let ls = lines(chars.as_slice());
    let ghost v = lines_of(raw@);
    let k = ls.len();
    let mut kinds: Vec<LineKind> = Vec::new();
    let mut i: usize = 0;
    while i < k
        invariant
            v == lines_of(raw@),
            k == v.len(),
            ls@.len() == k,
            forall|q: int| 0 <= q < k ==> (#[trigger] ls@[q])@ == v[q],
            i <= k,
            first_unrecognized(v, i as int) is None,
            kinds@.len() == i,
            forall|q: int| 0 <= q < i ==> line_kind(v[q]) == Some(#[trigger] kinds@[q]),
        decreases k - i,
    {
        assert(ls@[i as int]@ == v[i as int]);
        match classify(ls[i].as_slice()) {
            Some(kind) => kinds.push(kind),
            None => {
                proof {
                    reveal_strlit("unrecognized line: '");
                    assert(first_unrecognized(v, i as int + 1) == Some(i as int));
                    lemma_first_unrecognized_stays(v, i as int + 1, k as int);
                }
                let text = string_of(ls[i].as_slice());
                let msg = quoted("unrecognized line: '", text.as_str());
                assert(msg@ == unrecognized(v[i as int]));
                return Err(msg);
            },
        }
        i = i + 1;
    }
    let mut p: usize = 0;
    while p < k && !matches!(kinds[p], LineKind::Graph(_, _))
        invariant
            v == lines_of(raw@),
            k == v.len(),
            kinds@.len() == k,
            forall|q: int| 0 <= q < k ==> line_kind(v[q]) == Some(#[trigger] kinds@[q]),
            p <= k,
            first_header(v, p as int) is None,
        decreases k - p,
    {
        p = p + 1;
    }
    if p == k {
        proof {
            reveal_strlit("no p-line");
        }
        return Err(String::from_str("no p-line"));
    }
    assert(first_header(v, p as int + 1) == Some(p as int));
    assert(first_header(v, k as int) == Some(p as int)) by {
        lemma_first_header_stays(v, p as int + 1, k as int);
    }
    let n = match kinds[p] {
        LineKind::Graph(n, _) => n,
        _ => 0,
    };
    let mut graph = Graph::new_empty(n);
    let mut j: usize = p + 1;
    while j < k
        invariant
            v == lines_of(raw@),
            k == v.len(),
            ls@.len() == k,
            forall|q: int| 0 <= q < k ==> (#[trigger] ls@[q])@ == v[q],
            kinds@.len() == k,
            forall|q: int| 0 <= q < k ==> line_kind(v[q]) == Some(#[trigger] kinds@[q]),
            p < j <= k,
            graph.wf(),
            graph@.len() == n,
            graph@ == with_edges(empty_lists(n as nat), edges_after(v, p as int, j as int)),
            first_out_of_range(v, p as int, n, j as int) is None,
            first_unrecognized(v, k as int) is None,
            first_header(v, k as int) == Some(p as int),
            line_kind(v[p as int]) matches Some(LineKind::Graph(n0, _)) && n0 == n,
        decreases k - j,
    {
        if let LineKind::Edge(x, y) = kinds[j] {
            if x >= n || y >= n {
                proof {
                    reveal_strlit("edge out of range: '");
                    assert(first_out_of_range(v, p as int, n, j as int + 1) == Some(j as int));
                    lemma_first_out_stays(v, p as int, n, j as int + 1, k as int);
                }
                assert(ls@[j as int]@ == v[j as int]);
                let text = string_of(ls[j].as_slice());
                return Err(quoted("edge out of range: '", text.as_str()));
            }
            graph.add_edge(&(x, y));
            assert(edges_after(v, p as int, j as int + 1) == edges_after(v, p as int, j as int).push((x, y)));
            assert(edges_after(v, p as int, j as int).push((x, y)).drop_last() =~= edges_after(v, p as int, j as int));
        }
        j = j + 1;
    }
    Ok(graph)
}

/// Once found, the first header stays the first.
proof fn lemma_first_header_stays(ls: Seq<Seq<char>>, j: int, k: int)
    requires
        j <= k,
        first_header(ls, j) is Some,
    ensures
        first_header(ls, k) == first_header(ls, j),
    decreases k - j,
{
    if j < k {
        lemma_first_header_stays(ls, j, k - 1);
    }
}

/// Once found, the first edge out of range stays the first.
proof fn lemma_first_out_stays(ls: Seq<Seq<char>>, p: int, n: usize, j: int, k: int)
    requires
        p + 1 <= j <= k,
        first_out_of_range(ls, p, n, j) is Some,
    ensures
        first_out_of_range(ls, p, n, k) == first_out_of_range(ls, p, n, j),
    decreases k - j,
{
    if j < k {
        lemma_first_out_stays(ls, p, n, j, k - 1);
    }
}

/// Once found, the first unrecognized line stays the first.
proof fn lemma_first_unrecognized_stays(ls: Seq<Seq<char>>, j: int, k: int)
    requires
        j <= k,
        first_unrecognized(ls, j) is Some,
    ensures
        first_unrecognized(ls, k) == first_unrecognized(ls, j),
    decreases k - j,
{
    if j < k {
        lemma_first_unrecognized_stays(ls, j, k - 1);
    }
}

/// The edge that the Rudy line `l` gives on `n` vertices: three fields, the
/// first two numbers from 1 to `n`; the third, the weight, is not read.
pub open spec fn rudy_edge(l: Seq<char>, n: usize) -> Option<(usize, usize)> {
    let t = split_on(l, ' ');
    if t.len() == 3 {
        match (usize_of(t[0]), usize_of(t[1])) {
            (Some(v), Some(u)) => if 1 <= v <= n && 1 <= u <= n {
                Some(((v - 1) as usize, (u - 1) as usize))
            } else {
                None
            },
            _ => None,
        }
    } else {
        None
    }
}

/// The first of the lines `ls[1..k]` that is no edge on `n` vertices.
pub open spec fn first_bad_rudy(ls: Seq<Seq<char>>, n: usize, k: int) -> Option<int>
    decreases k,
{
    if k <= 1 {
        None
    } else {
        match first_bad_rudy(ls, n, k - 1) {
            Some(i) => Some(i),
            None => if rudy_edge(ls[k - 1], n) is None { Some(k - 1) } else { None },
        }
    }
}

/// The edges of the lines `ls[1..k]`, in order.
pub open spec fn rudy_edges(ls: Seq<Seq<char>>, n: usize, k: int) -> Seq<(usize, usize)>
    decreases k,
{
    if k <= 1 {
        Seq::empty()
    } else {
        let r = rudy_edges(ls, n, k - 1);
        match rudy_edge(ls[k - 1], n) {
            Some(e) => r.push(e),
            None => r,
        }
    }
}

/// What the Rudy text `raw` gives: the vertex count from the first field of
/// its first line and the edges of the other lines, or an error message.
/// Text without lines gives the message `emtry file`: that exact spelling
/// is part of the format's error text, and callers match on it.
pub open spec fn rudy_outcome(raw: Seq<char>) -> Result<(usize, Seq<(usize, usize)>), Seq<char>> {
    let ls = lines_of(raw);
    let k = ls.len() as int;
    if k == 0 {
        Err("emtry file"@)
    } else {
        match usize_of(split_on(ls[0], ' ')[0]) {
            None => Err(unrecognized(ls[0])),
            Some(n) => match first_bad_rudy(ls, n, k) {
                Some(i) => Err(unrecognized(ls[i])),
                None => Ok((n, rudy_edges(ls, n, k))),
            },
        }
    }
}

/// Parses a graph in the Rudy format: the first field of the first line is
/// the vertex count, and every other line is an edge with a weight.
pub fn parse_rudy(raw: &str) -> (r: Result<Graph, String>)
    ensures
        match rudy_outcome(raw@) {
            Ok((n, es)) => r matches Ok(g) && g.wf() && g@ == with_edges(empty_lists(n as nat), es),
            Err(msg) => r matches Err(e) && e@ == msg,
        },
{
    let chars = chars_of(raw);
    let ls = lines(chars.as_slice());
    let ghost v = lines_of(raw@);
    let k = ls.len();
    if k == 0 {
        proof {
            reveal_strlit("emtry file");
        }
        return Err(String::from_str("emtry file"));
    }
    assert(ls@[0]@ == v[0]);
    let first = split_chars(ls[0].as_slice(), ' ');
    proof {
        lemma_split_len(v[0], ' ');
    }
    assert(first@[0]@ == split_on(v[0], ' ')[0]);
    let n = match parse_usize(first[0].as_slice()) {
        Some(n) => n,
        None => {
            proof {
                reveal_strlit("unrecognized line: '");
            }
            let text = string_of(ls[0].as_slice());
            return Err(quoted("unrecognized line: '", text.as_str()));
        },
    };
    let mut graph = Graph::new_empty(n);
    let mut j: usize = 1;
    while j < k
        invariant
            v == lines_of(raw@),
            k == v.len(),
            ls@.len() == k,
            forall|q: int| 0 <= q < k ==> (#[trigger] ls@[q])@ == v[q],
            usize_of(split_on(v[0], ' ')[0]) == Some(n),
            1 <= j <= k,
            graph.wf(),
            graph@.len() == n,
            graph@ == with_edges(empty_lists(n as nat), rudy_edges(v, n, j as int)),
            first_bad_rudy(v, n, j as int) is None,
        decreases k - j,
    {
        assert(ls@[j as int]@ == v[j as int]);
        match rudy_line(ls[j].as_slice(), n) {
            Some(e) => {
                graph.add_edge(&e);
                assert(rudy_edges(v, n, j as int).push(e).drop_last() =~= rudy_edges(v, n, j as int));
            },
            None => {
                proof {
                    reveal_strlit("unrecognized line: '");
                    assert(first_bad_rudy(v, n, j as int + 1) == Some(j as int));
                    lemma_first_bad_rudy_stays(v, n, j as int + 1, k as int);
                }
                let text = string_of(ls[j].as_slice());
                return Err(quoted("unrecognized line: '", text.as_str()));
            },
        }
        j = j + 1;
    }
    Ok(graph)
}

/// The edge that the Rudy line `l` gives on `n` vertices, as [`rudy_edge`].
fn rudy_line(l: &[char], n: usize) -> (r: Option<(usize, usize)>)
    ensures
        r == rudy_edge(l@, n),
        r matches Some(e) ==> e.0 < n && e.1 < n,
{
    let t = split_chars(l, ' ');
    let ghost s = split_on(l@, ' ');
    if t.len() == 3 {
        assert(t@[0]@ == s[0] && t@[1]@ == s[1]);
        match (parse_usize(t[0].as_slice()), parse_usize(t[1].as_slice())) {
            (Some(v), Some(u)) => if 1 <= v && v <= n && 1 <= u && u <= n {
                Some((v - 1, u - 1))
            } else {
                None
            },
            _ => None,
        }
    } else {
        None
    }
}

/// Once found, the first bad Rudy line stays the first.
proof fn lemma_first_bad_rudy_stays(ls: Seq<Seq<char>>, n: usize, j: int, k: int)
    requires
        1 <= j <= k,
        first_bad_rudy(ls, n, j) is Some,
    ensures
        first_bad_rudy(ls, n, k) == first_bad_rudy(ls, n, j),
    decreases k - j,
{
    if j < k {
        lemma_first_bad_rudy_stays(ls, n, j, k - 1);
    }
}

} // verus!
