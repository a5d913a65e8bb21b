//! `pave search`: list the executables on the PATH that match a query.

use vstd::prelude::*;
use vstd::string::*;
use crate::util::ui::{warn, info, format_tree, status_line, tree_line, Tone};
use crate::text::owned;

verus! {

/// The lines that report the executables matching `query`: a warning when
/// there are none, else a heading and the results as a tree.
pub fn report(query: &str, results: &Vec<String>) -> (r: Vec<String>)
    ensures
        results@.len() == 0 ==> r@.len() == 1 && status_line(
            "!"@,
            Tone::Warning,
            "No executables matching '"@ + query@ + "' found on PATH."@,
            r@[0]@,
        ),
        results@.len() > 0 ==> r@.len() == results@.len() + 1
            && status_line("●"@, Tone::Info, "Executables matching '"@ + query@ + "':"@, r@[0]@)
            && forall|i: int| 0 <= i < results@.len() ==> tree_line(i, results@.len() as int, results@[i]@, #[trigger] r@[i + 1]@),
{
    let mut lines: Vec<String> = Vec::new();
    if results.len() == 0 {
        let mut m = owned("No executables matching '");
        m.append(query);
        m.append("' found on PATH.");
        lines.push(warn(m.as_str()));
        return lines;
    }
    let mut m = owned("Executables matching '");
    m.append(query);
    m.append("':");
    lines.push(info(m.as_str()));
    let tree = format_tree(results);
    let mut i: usize = 0;
    while i < tree.len()
        invariant
            i <= tree@.len() == results@.len(),
            lines@.len() == i + 1,
            status_line("●"@, Tone::Info, "Executables matching '"@ + query@ + "':"@, lines@[0]@),
            forall|k: int| 0 <= k < tree@.len() ==> tree_line(k, results@.len() as int, results@[k]@, #[trigger] tree@[k]@),
            forall|k: int| 0 <= k < i ==> lines@[k + 1] == #[trigger] tree@[k],
        decreases tree@.len() - i,
    {
        lines.push(tree[i].clone());
        i = i + 1;
    }
    proof {
        assert forall|k: int| 0 <= k < results@.len() implies tree_line(k, results@.len() as int, results@[k]@, #[trigger] lines@[k + 1]@) by {
            assert(lines@[k + 1] == tree@[k]);
        }
    }
    lines
}

} // verus!
