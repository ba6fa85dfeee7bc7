//! The files of the dataset, read from their text.
//!
//! An edge list starts with a line that holds the number of nodes; every
//! line after it holds the two ends of an edge. A community file holds one
//! community per line: its name, a colon, and its members. A feature file
//! holds one node per line: the node and its feature bits. A feature-name
//! file holds one name per line. An ego-feature file holds the feature bits
//! of the ego node.
//!
//! Fields are tokens: stretches free of white space. The lines of a text are
//! those of the text without the white space at its ends.

use crate::circles::Circles;
use crate::error::GraphError;
use crate::error::LoadError;
use crate::error::ParseError;
use crate::error::ParseErrorKind;
use crate::matrix::adjacency_of;
use crate::matrix::endpoints_below;
use crate::matrix::first_end_not_below;
use crate::matrix::read_graph;
use crate::matrix::rows_of;
use crate::text::bits_of;
use crate::text::chars_of;
use crate::text::integer_of;
use crate::text::integers_of;
use crate::text::lines;
use crate::text::lines_of;
use crate::text::next_token;
use crate::text::parse_bits;
use crate::text::parse_integer;
use crate::text::parse_integers;
use crate::text::split;
use crate::text::split_first;
use crate::text::string_of;
use crate::text::tokens;
use crate::text::trim;
use crate::text::trim_of;
use std::collections::HashMap;
use std::collections::HashSet;
use vstd::prelude::*;

verus! {

broadcast use vstd::std_specs::hash::group_hash_axioms;

/// The number of nodes that the first line of an edge list holds: the line,
/// trimmed, is an integer.
pub open spec fn node_count_of(line: Seq<char>) -> Result<usize, ParseErrorKind> {
    match integer_of(trim(line)) {
        Some(n) => Ok(n),
        None => Err(ParseErrorKind::MalformedInteger),
    }
}

/// The edge that a line of an edge list holds: its first two tokens are the
/// integers of the two ends.
pub open spec fn edge_of(line: Seq<char>) -> Result<(usize, usize), ParseErrorKind> {
    let t = tokens(line);
    if t.len() == 0 {
        Err(ParseErrorKind::MalformedInteger)
    } else {
        match integer_of(t[0]) {
            None => Err(ParseErrorKind::MalformedInteger),
            Some(a) => if t.len() == 1 {
                Err(ParseErrorKind::MissingSeparator)
            } else {
                match integer_of(t[1]) {
                    None => Err(ParseErrorKind::MalformedInteger),
                    Some(b) => Ok((a, b)),
                }
            },
        }
    }
}

/// The community that a line of a community file holds: the name is what
/// stands before the first colon, trimmed; the members are the integers
/// between the first colon and the next.
pub open spec fn circle_of(line: Seq<char>) -> Result<(Seq<char>, Set<usize>), ParseErrorKind> {
    let parts = split(line, ':');
    if parts.len() < 2 {
        Err(ParseErrorKind::MissingSeparator)
    } else {
        match integers_of(tokens(parts[1])) {
            None => Err(ParseErrorKind::MalformedInteger),
            Some(members) => Ok((trim(parts[0]), members.to_set())),
        }
    }
}

/// The node and the feature bits that a line of a feature file holds: the
/// first token is the integer of the node, every further token is a bit.
pub open spec fn node_features_of(line: Seq<char>) -> Result<(usize, Seq<bool>), ParseErrorKind> {
    let t = tokens(line);
    if t.len() == 0 {
        Err(ParseErrorKind::MalformedInteger)
    } else {
        match integer_of(t[0]) {
            None => Err(ParseErrorKind::MalformedInteger),
            Some(node) => match bits_of(t.skip(1)) {
                None => Err(ParseErrorKind::MalformedBoolean),
                Some(bits) => Ok((node, bits)),
            },
        }
    }
}

/// Every line of `lines` reads.
pub open spec fn all_read<T>(
    lines: Seq<Seq<char>>,
    read: spec_fn(Seq<char>) -> Result<T, ParseErrorKind>,
) -> bool {
    forall|i: int| 0 <= i < lines.len() ==> read(#[trigger] lines[i]) is Ok
}

/// What the lines of `lines` read as, line by line.
pub open spec fn records_of<T>(
    lines: Seq<Seq<char>>,
    read: spec_fn(Seq<char>) -> Result<T, ParseErrorKind>,
) -> Seq<T> {
    Seq::new(
        lines.len(),
        |i: int|
            match read(lines[i]) {
                Ok(record) => record,
                Err(_) => arbitrary(),
            },
    )
}

/// The line at position `at` is the first of `lines` that does not read, and
/// `kind` is why.
pub open spec fn first_unread<T>(
    lines: Seq<Seq<char>>,
    read: spec_fn(Seq<char>) -> Result<T, ParseErrorKind>,
    at: int,
    kind: ParseErrorKind,
) -> bool {
    &&& 0 <= at < lines.len()
    &&& read(lines[at]) == Err::<T, ParseErrorKind>(kind)
    &&& forall|j: int| 0 <= j < at ==> read(#[trigger] lines[j]) is Ok
}

/// The map that `records` fill when they are inserted in order: of two
/// records under one key the later one counts.
pub open spec fn map_of<K, V>(records: Seq<(K, V)>) -> Map<K, V>
    decreases records.len(),
{
    if records.len() == 0 {
        Map::empty()
    } else {
        map_of(records.drop_last()).insert(records.last().0, records.last().1)
    }
}

/// The feature bits of `features`, each as a sequence.
pub open spec fn bits_by_node(features: Map<usize, Vec<bool>>) -> Map<usize, Seq<bool>> {
    features.map_values(|bits: Vec<bool>| bits@)
}

/// Reads the first line of an edge list.
pub fn parse_node_count_line(line: &[char]) -> (r: Result<usize, ParseErrorKind>)
    ensures
        r == node_count_of(line@),
{
    match parse_integer(trim_of(line)) {
        Some(n) => Ok(n),
        None => Err(ParseErrorKind::MalformedInteger),
    }
}

/// Reads a line of an edge list.
pub fn parse_edge_line(line: &[char]) -> (r: Result<(usize, usize), ParseErrorKind>)
    ensures
        r == edge_of(line@),
{
    let (first, rest) = match next_token(line) {
        Some(found) => found,
        None => {
            return Err(ParseErrorKind::MalformedInteger);
        },
    };
    assert(tokens(line@)[0] == first@);
    let a = match parse_integer(first) {
        Some(a) => a,
        None => {
            return Err(ParseErrorKind::MalformedInteger);
        },
    };
    let (second, _) = match next_token(rest) {
        Some(found) => found,
        None => {
            assert(tokens(line@).len() == 1);
            return Err(ParseErrorKind::MissingSeparator);
        },
    };
    assert(tokens(line@)[1] == tokens(rest@)[0]);
    match parse_integer(second) {
        Some(b) => Ok((a, b)),
        None => Err(ParseErrorKind::MalformedInteger),
    }
}

/// The set of the integers of `values`.
fn set_of(values: &Vec<usize>) -> (set: HashSet<usize>)
    ensures
        set@ == values@.to_set(),
{
    let mut set: HashSet<usize> = HashSet::new();
    let mut k: usize = 0;
    assert(values@.take(0).to_set() =~= Set::<usize>::empty());
    while k < values.len()
        invariant
            k <= values@.len(),
            set@ == values@.take(k as int).to_set(),
        decreases values@.len() - k,
    {
        set.insert(values[k]);
        proof {
            let seen = values@.take(k as int);
            let more = values@.take(k + 1);
            assert(more =~= seen.push(values@[k as int]));
            assert forall|v: usize| more.to_set().contains(v) == seen.to_set().insert(
                values@[k as int],
            ).contains(v) by {
                if seen.contains(v) {
                    let j = choose|j: int| 0 <= j < seen.len() && seen[j] == v;
                    assert(more[j] == v);
                }
                if v == values@[k as int] {
                    assert(more[k as int] == v);
                }
            }
            assert(more.to_set() =~= seen.to_set().insert(values@[k as int]));
        }
        k += 1;
    }
    assert(values@.take(k as int) =~= values@);
    set
}

/// Reads a line of a community file.
pub fn parse_circle_line(line: &[char]) -> (r: Result<(String, HashSet<usize>), ParseErrorKind>)
    ensures
        match r {
            Ok(circle) => circle_of(line@) == Ok::<_, ParseErrorKind>((circle.0@, circle.1@)),
            Err(kind) => circle_of(line@) == Err::<(Seq<char>, Set<usize>), _>(kind),
        },
{
    let (before, after) = split_first(line, ':');
    let after = match after {
        Some(after) => after,
        None => {
            assert(split(line@, ':') =~= seq![before@]);
            return Err(ParseErrorKind::MissingSeparator);
        },
    };
    let (listed, _) = split_first(after, ':');
    proof {
        let parts = split(line@, ':');
        assert(parts[0] == before@);
        assert(parts[1] == split(after@, ':')[0]);
        assert(parts[1] == listed@);
    }
    let members = match parse_integers(listed) {
        Some(members) => members,
        None => {
            return Err(ParseErrorKind::MalformedInteger);
        },
    };
    let name = string_of(trim_of(before));
    Ok((name, set_of(&members)))
}

/// Reads a line of a feature file.
pub fn parse_node_features_line(line: &[char]) -> (r: Result<(usize, Vec<bool>), ParseErrorKind>)
    ensures
        match r {
            Ok(record) => node_features_of(line@) == Ok::<_, ParseErrorKind>((record.0, record.1@)),
            Err(kind) => node_features_of(line@) == Err::<(usize, Seq<bool>), _>(kind),
        },
{
    let (first, rest) = match next_token(line) {
        Some(found) => found,
        None => {
            return Err(ParseErrorKind::MalformedInteger);
        },
    };
    proof {
        assert(tokens(line@)[0] == first@);
        assert(tokens(line@).skip(1) =~= tokens(rest@));
    }
    let node = match parse_integer(first) {
        Some(node) => node,
        None => {
            return Err(ParseErrorKind::MalformedInteger);
        },
    };
    match parse_bits(rest) {
        Some(bits) => Ok((node, bits)),
        None => Err(ParseErrorKind::MalformedBoolean),
    }
}

/// The number of nodes that the first line of the edge list `text` holds.
pub fn parse_node_count(text: &str) -> (r: Result<usize, ParseError>)
    ensures
        match r {
            Ok(n) => node_count_of(lines(text@)[0]) == Ok::<_, ParseErrorKind>(n),
            Err(e) => e.line == 0 && node_count_of(lines(text@)[0]) == Err::<usize, _>(e.kind),
        },
{
    let chars = chars_of(text);
    let found = lines_of(chars.as_slice());
    match parse_node_count_line(found[0]) {
        Ok(n) => Ok(n),
        Err(kind) => Err(ParseError { line: 0, kind }),
    }
}

/// The edges that the edge list `text` holds, in the order of its lines. The
/// first line of the text is not an edge and is passed over unread.
///
/// Fails on the first line that holds no edge.
pub fn parse_edges(text: &str) -> (r: Result<Vec<(usize, usize)>, ParseError>)
    ensures
        match r {
            Ok(edges) => {
                &&& all_read(lines(text@).skip(1), |line: Seq<char>| edge_of(line))
                &&& edges@ == records_of(lines(text@).skip(1), |line: Seq<char>| edge_of(line))
            },
            Err(e) => e.line >= 1 && first_unread(
                lines(text@).skip(1),
                |line: Seq<char>| edge_of(line),
                e.line - 1,
                e.kind,
            ),
        },
{
    let chars = chars_of(text);
    let found = lines_of(chars.as_slice());
    let ghost body = lines(text@).skip(1);
    let mut edges: Vec<(usize, usize)> = Vec::new();
    let mut i: usize = 1;
    while i < found.len()
        invariant
            1 <= i <= found@.len(),
            found@.len() == lines(text@).len(),
            body == lines(text@).skip(1),
            forall|j: int| 0 <= j < found@.len() ==> (#[trigger] found@[j])@ == lines(text@)[j],
            edges@.len() == i - 1,
            forall|j: int|
                0 <= j < i - 1 ==> edge_of(#[trigger] body[j]) == Ok::<_, ParseErrorKind>(
                    edges@[j],
                ),
        decreases found@.len() - i,
    {
        assert(body[i - 1] == found@[i as int]@);
        match parse_edge_line(found[i]) {
            Ok(edge) => {
                edges.push(edge);
            },
            Err(kind) => {
                return Err(ParseError { line: i, kind });
            },
        }
        i += 1;
    }
    assert(edges@ =~= records_of(body, |line: Seq<char>| edge_of(line)));
    Ok(edges)
}

/// The communities that the community file `text` holds.
///
/// Fails on the first line that holds no community.
pub fn parse_circles(text: &str) -> (r: Result<Circles, ParseError>)
    ensures
        match r {
            Ok(circles) => {
                &&& all_read(lines(text@), |line: Seq<char>| circle_of(line))
                &&& circles@ == map_of(records_of(lines(text@), |line: Seq<char>| circle_of(line)))
            },
            Err(e) => first_unread(
                lines(text@),
                |line: Seq<char>| circle_of(line),
                e.line as int,
                e.kind,
            ),
        },
{
    let chars = chars_of(text);
    let found = lines_of(chars.as_slice());
    let ghost all = lines(text@);
    let ghost read = |line: Seq<char>| circle_of(line);
    let mut circles = Circles::new();
    let mut i: usize = 0;
    assert(records_of(all.take(0), read) =~= Seq::empty());
    assert(circles@ =~= map_of(records_of(all.take(0), read)));
    while i < found.len()
        invariant
            i <= found@.len(),
            found@.len() == all.len(),
            all == lines(text@),
            read == |line: Seq<char>| circle_of(line),
            forall|j: int| 0 <= j < found@.len() ==> (#[trigger] found@[j])@ == all[j],
            forall|j: int| 0 <= j < i ==> circle_of(#[trigger] all[j]) is Ok,
            circles@ == map_of(records_of(all.take(i as int), read)),
        decreases found@.len() - i,
    {
        assert(all[i as int] == found@[i as int]@);
        match parse_circle_line(found[i]) {
            Ok((name, members)) => {
                proof {
                    let before = records_of(all.take(i as int), read);
                    let after = records_of(all.take(i + 1), read);
                    assert(after.drop_last() =~= before);
                    assert(after.last() == (name@, members@));
                }
                circles.insert(name, members);
            },
            Err(kind) => {
                return Err(ParseError { line: i, kind });
            },
        }
        i += 1;
    }
    assert(all.take(i as int) =~= all);
    Ok(circles)
}

/// The feature bits that the feature file `text` holds, by node.
///
/// Fails on the first line that holds no node with its bits.
pub fn parse_features(text: &str) -> (r: Result<HashMap<usize, Vec<bool>>, ParseError>)
    ensures
        match r {
            Ok(features) => {
                &&& all_read(lines(text@), |line: Seq<char>| node_features_of(line))
                &&& bits_by_node(features@) == map_of(
                    records_of(lines(text@), |line: Seq<char>| node_features_of(line)),
                )
            },
            Err(e) => first_unread(
                lines(text@),
                |line: Seq<char>| node_features_of(line),
                e.line as int,
                e.kind,
            ),
        },
{
    let chars = chars_of(text);
    let found = lines_of(chars.as_slice());
    let ghost all = lines(text@);
    let ghost read = |line: Seq<char>| node_features_of(line);
    let mut features: HashMap<usize, Vec<bool>> = HashMap::new();
    let mut i: usize = 0;
    proof {
        assert(records_of(all.take(0), read) =~= Seq::empty());
        assert(bits_by_node(features@) =~= Map::empty());
    }
    while i < found.len()
        invariant
            i <= found@.len(),
            found@.len() == all.len(),
            all == lines(text@),
            read == |line: Seq<char>| node_features_of(line),
            forall|j: int| 0 <= j < found@.len() ==> (#[trigger] found@[j])@ == all[j],
            forall|j: int| 0 <= j < i ==> node_features_of(#[trigger] all[j]) is Ok,
            bits_by_node(features@) == map_of(records_of(all.take(i as int), read)),
        decreases found@.len() - i,
    {
        assert(all[i as int] == found@[i as int]@);
        match parse_node_features_line(found[i]) {
            Ok((node, bits)) => {
                proof {
                    let before = records_of(all.take(i as int), read);
                    let after = records_of(all.take(i + 1), read);
                    assert(after.drop_last() =~= before);
                    assert(after.last() == (node, bits@));
                    assert(bits_by_node(features@.insert(node, bits)) =~= bits_by_node(
                        features@,
                    ).insert(node, bits@));
                }
                features.insert(node, bits);
            },
            Err(kind) => {
                return Err(ParseError { line: i, kind });
            },
        }
        i += 1;
    }
    assert(all.take(i as int) =~= all);
    Ok(features)
}

/// The names that the feature-name file `text` holds: its lines, each
/// trimmed.
pub fn parse_feature_names(text: &str) -> (names: Vec<String>)
    ensures
        names@.len() == lines(text@).len(),
        forall|i: int| 0 <= i < names@.len() ==> (#[trigger] names@[i])@ == trim(lines(text@)[i]),
{
    let chars = chars_of(text);
    let found = lines_of(chars.as_slice());
    let mut names: Vec<String> = Vec::new();
    let mut i: usize = 0;
    while i < found.len()
        invariant
            i <= found@.len(),
            found@.len() == lines(text@).len(),
            forall|j: int| 0 <= j < found@.len() ==> (#[trigger] found@[j])@ == lines(text@)[j],
            names@.len() == i,
            forall|j: int| 0 <= j < i ==> (#[trigger] names@[j])@ == trim(lines(text@)[j]),
        decreases found@.len() - i,
    {
        names.push(string_of(trim_of(found[i])));
        i += 1;
    }
    names
}

/// The feature bits of the ego node that the ego-feature file `text` holds:
/// its tokens, each a bit.
///
/// Fails if a token of the text is no bit.
pub fn parse_ego_features(text: &str) -> (r: Result<Vec<bool>, ParseError>)
    ensures
        match r {
            Ok(bits) => bits_of(tokens(text@)) == Some(bits@),
            Err(e) => bits_of(tokens(text@)) is None && e == (ParseError {
                line: 0,
                kind: ParseErrorKind::MalformedBoolean,
            }),
        },
{
    let chars = chars_of(text);
    match parse_bits(chars.as_slice()) {
        Some(bits) => Ok(bits),
        None => Err(ParseError { line: 0, kind: ParseErrorKind::MalformedBoolean }),
    }
}

/// The adjacency matrix that the edge list `text` describes: as many nodes
/// as its first line says, joined by the edges of the lines after it.
///
/// Fails if a line cannot be read, the first line first; and, once all are
/// read, if an edge names a node that is not below the number of nodes.
pub fn make_graph(text: &str) -> (r: Result<Vec<Vec<usize>>, LoadError>)
    ensures
        match r {
            Ok(matrix) => {
                let edges = records_of(lines(text@).skip(1), |line: Seq<char>| edge_of(line));
                &&& node_count_of(lines(text@)[0]) is Ok
                &&& all_read(lines(text@).skip(1), |line: Seq<char>| edge_of(line))
                &&& endpoints_below(edges, node_count_of(lines(text@)[0])->Ok_0 as nat)
                &&& rows_of(matrix@) == adjacency_of(
                    node_count_of(lines(text@)[0])->Ok_0 as nat,
                    edges,
                )
            },
            Err(LoadError::Parse(e)) => if e.line == 0 {
                node_count_of(lines(text@)[0]) == Err::<usize, _>(e.kind)
            } else {
                &&& node_count_of(lines(text@)[0]) is Ok
                &&& first_unread(
                    lines(text@).skip(1),
                    |line: Seq<char>| edge_of(line),
                    e.line - 1,
                    e.kind,
                )
            },
            Err(LoadError::Graph(e)) => {
                let edges = records_of(lines(text@).skip(1), |line: Seq<char>| edge_of(line));
                &&& node_count_of(lines(text@)[0]) is Ok
                &&& all_read(lines(text@).skip(1), |line: Seq<char>| edge_of(line))
                &&& !endpoints_below(edges, node_count_of(lines(text@)[0])->Ok_0 as nat)
                &&& e == (GraphError::IndexOutOfRange {
                    index: first_end_not_below(edges, node_count_of(lines(text@)[0])->Ok_0 as nat),
                    nodes: node_count_of(lines(text@)[0])->Ok_0,
                })
            },
        },
{
    let n = match parse_node_count(text) {
        Ok(n) => n,
        Err(e) => {
            return Err(LoadError::Parse(e));
        },
    };
    let edges = match parse_edges(text) {
        Ok(edges) => edges,
        Err(e) => {
            return Err(LoadError::Parse(e));
        },
    };
    match read_graph(n, edges) {
        Ok(matrix) => Ok(matrix),
        Err(e) => Err(LoadError::Graph(e)),
    }
}

} // verus!
