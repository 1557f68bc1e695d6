//! Rendering a graph in the dot format.

use vstd::prelude::*;
use vstd::string::StringExecFns;
use super::graph::Graph;

verus! {

/// Append the decimal digits of `n` to `out`.
fn append_decimal(out: &mut String, n: usize) {
    let mut digits: Vec<u8> = Vec::new();
    let mut m = n;
    while m >= 10
        decreases m,
    {
        digits.push((m % 10) as u8);
        m = m / 10;
    }
    digits.push(m as u8);
    let mut i = digits.len();
    while i > 0
        invariant
            i <= digits@.len(),
        decreases i,
    {
        i = i - 1;
        let d = digits[i];
        match d {
            0 => out.append("0"),
            1 => out.append("1"),
            2 => out.append("2"),
            3 => out.append("3"),
            4 => out.append("4"),
            5 => out.append("5"),
            6 => out.append("6"),
            7 => out.append("7"),
            8 => out.append("8"),
            _ => out.append("9"),
        }
    }
}

/// A dot rendering of the graph's structure: one line per live node and
/// one `a -> b` line per live edge.
pub fn dot_string<N, E, P>(graph: &Graph<N, E, P>) -> String {
    let mut out = String::new();
    out.append("digraph {\n");
    let mut i: usize = 0;
    while i < graph.nodes.len()
        decreases graph.nodes@.len() - i,
    {
        if graph.nodes[i].is_some() {
            out.append("    ");
            append_decimal(&mut out, i);
            out.append(";\n");
        }
        i = i + 1;
    }
    let mut j: usize = 0;
    while j < graph.edges.len()
        decreases graph.edges@.len() - j,
    {
        match &graph.edges[j] {
            Some(e) => {
                out.append("    ");
                append_decimal(&mut out, e.source.0);
                out.append(" -> ");
                append_decimal(&mut out, e.target.0);
                out.append(";\n");
            },
            None => {},
        }
        j = j + 1;
    }
    out.append("}\n");
    out
}

} // verus!
