use vstd::prelude::*;
use crate::text::{is_number, is_space, trim, trim_start, trim_end, check_number, trimmed, string_of};
use vstd::std_specs::iter::IteratorSpec;
use crate::sequence::{Sequence, over_table};
use crate::mutator::{Mutator, EvolveError};

verus! {

broadcast use vstd::string::axiom_spec_iter, vstd::string::next_postcondition;

/// Why a Newick string could not be turned into a tree.
#[derive(Debug, Clone, Copy, PartialEq, Eq, Structural)]
pub enum ParseError {
    /// The string does not end in `;`.
    MissingTerminator,
    /// The tree was built already.
    AlreadyBuilt,
    /// A `,` or `)` outside any parenthesised group.
    NoEnclosingGroup,
    /// A branch length that is not a number.
    BadBranchLength,
    /// A group left open when the scan stopped.
    Unbalanced,
}

/// A node as the scan sees it: its parent's index, its id and its branch length text.
pub struct NodeView {
    pub parent: Option<nat>,
    pub id: Option<Seq<char>>,
    pub branch: Option<Seq<char>>,
}

/// What the scan of a Newick string knows after a prefix of it: the depth of
/// open groups, whether the pending field is a branch length, the pending
/// text, the error met if any, whether `;` was reached, how many nodes were
/// closed by `,` or `)`, the nodes made so far, the open groups' nodes and
/// the node being read.
pub struct Scan {
    pub depth: nat,
    pub branch: bool,
    pub buf: Seq<char>,
    pub err: Option<ParseError>,
    pub done: bool,
    pub closed: nat,
    pub tree: Seq<NodeView>,
    pub stack: Seq<nat>,
    pub curr: nat,
}

/// A node just made, with no id and no branch length.
pub open spec fn fresh(parent: Option<nat>) -> NodeView {
    NodeView { parent, id: None, branch: None }
}

/// The scan before any character: the root alone, being read.
pub open spec fn scan_start() -> Scan {
    Scan {
        depth: 0,
        branch: false,
        buf: Seq::empty(),
        err: None,
        done: false,
        closed: 0,
        tree: seq![fresh(None)],
        stack: Seq::empty(),
        curr: 0,
    }
}

/// The nodes after the pending field is stored into the current node: a
/// branch length, or an id (none when blank).
pub open spec fn store(st: Scan) -> Seq<NodeView> {
    let t = trim(st.buf);
    let n = st.tree[st.curr as int];
    if st.branch {
        st.tree.update(st.curr as int, NodeView { branch: Some(t), ..n })
    } else {
        st.tree.update(st.curr as int, NodeView { id: if t.len() > 0 { Some(t) } else { None }, ..n })
    }
}

/// A node as the scan sees it.
pub open spec fn node_view(n: NNode) -> NodeView {
    NodeView {
        parent: match n.parent {
            Some(p) => Some(p as nat),
            None => None,
        },
        id: match n.id {
            Some(i) => Some(i@),
            None => None,
        },
        branch: match n.branch_length {
            Some(b) => Some(b@),
            None => None,
        },
    }
}

/// The nodes of an arena as the scan sees them.
pub open spec fn arena_view(nodes: Seq<NNode>) -> Seq<NodeView> {
    nodes.map_values(|n: NNode| node_view(n))
}

/// The open groups' nodes as the scan sees them.
pub open spec fn stack_view(stack: Seq<usize>) -> Seq<nat> {
    stack.map_values(|x: usize| x as nat)
}

/// The pending field cannot be stored: it is a branch length that is not a number.
pub open spec fn bad_field(st: Scan) -> bool {
    st.branch && !is_number(trim(st.buf))
}

/// The effect of one character on the scan.
pub open spec fn scan_step(st: Scan, c: char) -> Scan {
    if c == '(' {
        Scan {
            depth: st.depth + 1,
            tree: st.tree.push(fresh(Some(st.curr))),
            stack: st.stack.push(st.curr),
            curr: st.tree.len(),
            ..st
        }
    } else if c == ',' || c == ')' {
        if st.depth == 0 {
            Scan { err: Some(ParseError::NoEnclosingGroup), ..st }
        } else if bad_field(st) {
            Scan { err: Some(ParseError::BadBranchLength), ..st }
        } else if c == ',' {
            let t = store(st);
            Scan {
                branch: false,
                buf: Seq::empty(),
                closed: st.closed + 1,
                tree: t.push(fresh(Some(st.stack.last()))),
                curr: t.len(),
                ..st
            }
        } else {
            Scan {
                depth: (st.depth - 1) as nat,
                branch: false,
                buf: Seq::empty(),
                closed: st.closed + 1,
                tree: store(st),
                stack: st.stack.drop_last(),
                curr: st.stack.last(),
                ..st
            }
        }
    } else if c == ':' {
        if bad_field(st) {
            Scan { err: Some(ParseError::BadBranchLength), ..st }
        } else {
            Scan { branch: true, buf: Seq::empty(), tree: store(st), ..st }
        }
    } else if c == ';' {
        if bad_field(st) {
            Scan { err: Some(ParseError::BadBranchLength), ..st }
        } else {
            Scan { buf: Seq::empty(), done: true, tree: store(st), ..st }
        }
    } else {
        Scan { buf: st.buf.push(c), ..st }
    }
}

/// The scan after the characters of `s`; it stops at an error or at `;`.
pub open spec fn scan(s: Seq<char>) -> Scan
    decreases s.len(),
{
    if s.len() == 0 {
        scan_start()
    } else {
        let st = scan(s.drop_last());
        if st.err is Some || st.done {
            st
        } else {
            scan_step(st, s.last())
        }
    }
}

/// The outcome of parsing `s`: the number of nodes of the tree, or the error.
pub open spec fn parse_outcome(s: Seq<char>) -> Result<nat, ParseError> {
    if s.len() == 0 || s.last() != ';' {
        Err(ParseError::MissingTerminator)
    } else {
        let st = scan(s);
        if st.err is Some {
            Err(st.err->0)
        } else if st.depth != 0 {
            Err(ParseError::Unbalanced)
        } else {
            Ok(st.closed + 1)
        }
    }
}

/// Number of `,` and `)` in `s`: the separators that each close one node.
pub open spec fn separators(s: Seq<char>) -> nat
    decreases s.len(),
{
    if s.len() == 0 {
        0
    } else {
        separators(s.drop_last()) + if s.last() == ',' || s.last() == ')' { 1nat } else { 0nat }
    }
}

proof fn lemma_closed_counts(s: Seq<char>, k: int)
    requires
        0 <= k <= s.len(),
        forall|i: int| 0 <= i < k ==> s[i] != ';',
        scan(s.take(k)).err is None,
    ensures
        scan(s.take(k)).closed == separators(s.take(k)),
        !scan(s.take(k)).done,
    decreases k,
{
    if k > 0 {
        assert(s.take(k).drop_last() =~= s.take(k - 1));
        let prev = scan(s.take(k - 1));
        if prev.err is Some {
            assert(scan(s.take(k)) == prev);
        } else {
            lemma_closed_counts(s, k - 1);
        }
    }
}

/// Parsing counts every node once: a Newick string whose only `;` ends it
/// parses into one node per `,` or `)` (each closes a node) plus the root.
pub proof fn lemma_node_count(s: Seq<char>, n: nat)
    requires
        s.len() > 0,
        forall|i: int| 0 <= i < s.len() - 1 ==> s[i] != ';',
        parse_outcome(s) == Ok::<nat, ParseError>(n),
    ensures
        n == separators(s) + 1,
{
    let k = s.len() - 1;
    assert(s.drop_last() =~= s.take(k));
    let prev = scan(s.take(k));
    if prev.err is Some {
        assert(scan(s) == prev);
    } else {
        lemma_closed_counts(s, k);
        assert(separators(s) == separators(s.take(k)));
    }
}

proof fn lemma_scan_stops(s: Seq<char>, k: int)
    requires
        0 <= k <= s.len(),
        scan(s.take(k)).err is Some || scan(s.take(k)).done,
    ensures
        scan(s) == scan(s.take(k)),
    decreases s.len() - k,
{
    if k < s.len() {
        assert(s.take(k + 1).drop_last() =~= s.take(k));
        lemma_scan_stops(s, k + 1);
    } else {
        assert(s.take(k) =~= s);
    }
}

/// Every stored branch length is the text of a number, and every stored id is
/// non-blank text without surrounding white space.
pub open spec fn fields_ok(nodes: Seq<NNode>) -> bool {
    forall|i: int| 0 <= i < nodes.len() ==> {
        &&& ((#[trigger] nodes[i]).branch_length is Some ==> is_number(nodes[i].branch_length->0@))
        &&& (nodes[i].id is Some ==> nodes[i].id->0@.len() > 0 && trim(nodes[i].id->0@) == nodes[i].id->0@)
    }
}

/// One node of a tree: nodes live in an arena in which a parent always comes
/// before its children, children in the order in which they were read.
pub struct NNode {
    pub parent: Option<usize>,
    pub id: Option<String>,
    /// The branch length as the text of a decimal number; none for zero.
    pub branch_length: Option<String>,
    pub sequence: Option<Sequence>,
}

/// The arena is a tree rooted at node 0: each other node names an earlier node
/// as its parent.
pub open spec fn arena_wf(nodes: Seq<NNode>) -> bool {
    &&& nodes.len() > 0
    &&& nodes[0].parent is None
    &&& forall|i: int| 0 < i < nodes.len() ==> (#[trigger] nodes[i]).parent is Some
            && nodes[i].parent->0 < i
}

/// Node `i` has no children.
pub open spec fn is_tip(nodes: Seq<NNode>, i: int) -> bool {
    forall|j: int| 0 < j < nodes.len() ==> (#[trigger] nodes[j]).parent != Some(i as usize)
}

fn empty_node(parent: Option<usize>) -> (r: NNode)
    ensures
        r.parent == parent,
        r.id is None,
        r.branch_length is None,
        r.sequence is None,
{
    NNode { parent, id: None, branch_length: None, sequence: None }
}

proof fn lemma_trim_idempotent(s: Seq<char>)
    ensures
        trim(trim(s)) == trim(s),
{
    lemma_trim_start_end(s);
    lemma_trim_end_end(trim_start(s));
}

proof fn lemma_trim_start_end(s: Seq<char>)
    ensures
        trim_start(trim_end(trim_start(s))) == trim_end(trim_start(s)),
        trim_start(s).len() > 0 ==> !is_space(trim_start(s)[0]),
    decreases s.len(),
{
    if s.len() > 0 && is_space(s[0]) {
        lemma_trim_start_end(s.drop_first());
    } else {
        lemma_trim_end_keeps_head(s);
    }
}

proof fn lemma_trim_end_keeps_head(s: Seq<char>)
    requires
        s.len() == 0 || !is_space(s[0]),
    ensures
        trim_start(trim_end(s)) == trim_end(s),
        trim_end(s).len() > 0 ==> trim_end(s)[0] == s[0],
    decreases s.len(),
{
    if s.len() > 0 && is_space(s.last()) {
        if s.len() > 1 {
            lemma_trim_end_keeps_head(s.drop_last());
        }
    }
}

proof fn lemma_trim_end_end(s: Seq<char>)
    ensures
        trim_end(trim_end(s)) == trim_end(s),
        trim_end(s).len() > 0 ==> !is_space(trim_end(s).last()),
    decreases s.len(),
{
    if s.len() > 0 && is_space(s.last()) {
        lemma_trim_end_end(s.drop_last());
    }
}

/// Stores the pending field into node `curr`: an id (none if blank), or a
/// branch length, which must be a number.
fn consume(nodes: &mut Vec<NNode>, curr: usize, branch: bool, buf: &Vec<char>) -> (ok: bool)
    requires
        curr < old(nodes).len(),
    ensures
        ok == !(branch && !is_number(trim(buf@))),
        ok ==> arena_view(final(nodes)@) == store(Scan {
            branch, buf: buf@, tree: arena_view(old(nodes)@), curr: curr as nat,
            depth: 0, err: None, done: false, closed: 0, stack: Seq::empty() }),
        final(nodes).len() == old(nodes).len(),
        forall|i: int| 0 <= i < old(nodes).len() ==> (#[trigger] final(nodes)[i]).parent == old(nodes)[i].parent
            && final(nodes)[i].sequence == old(nodes)[i].sequence,
        fields_ok(old(nodes)@) ==> fields_ok(final(nodes)@),
{
    let text = trimmed(buf);
    proof {
        lemma_trim_idempotent(buf@);
    }
    let ghost before = nodes@;
    if branch {
        if !check_number(&text) {
            return false;
        }
        nodes[curr].branch_length = Some(string_of(&text));
    } else if text.len() > 0 {
        nodes[curr].id = Some(string_of(&text));
    } else {
        nodes[curr].id = None;
    }
    assert(arena_view(nodes@) =~= arena_view(before).update(curr as int, node_view(nodes@[curr as int])));
    true
}

/// Parses a Newick string into a node arena, in one left-to-right scan with an
/// explicit stack of open groups.
pub fn parse_newick(s: &str) -> (r: Result<Vec<NNode>, ParseError>)
    ensures
        match r {
            Ok(nodes) => parse_outcome(s@) == Ok::<nat, ParseError>(nodes.len() as nat) && arena_wf(nodes@)
                && fields_ok(nodes@) && arena_view(nodes@) == scan(s@).tree
                && forall|i: int| 0 <= i < nodes.len() ==> (#[trigger] nodes[i]).sequence is None,
            Err(e) => parse_outcome(s@) == Err::<nat, ParseError>(e),
        },
{
    let n = s.unicode_len();
    if n == 0 || s.get_char(n - 1) != ';' {
        return Err(ParseError::MissingTerminator);
    }
    let mut nodes: Vec<NNode> = Vec::new();
    nodes.push(empty_node(None));
    let mut stack: Vec<usize> = Vec::new();
    let mut curr: usize = 0;
    let mut buf: Vec<char> = Vec::new();
    let mut branch: bool = false;
    let mut done: bool = false;
    let ghost mut k: int = 0;
    let mut it = s.chars();
    assert(arena_view(nodes@) =~= seq![fresh(None)]);
    assert(stack_view(stack@) =~= Seq::<nat>::empty());
    assert(s@.take(0) =~= Seq::<char>::empty());
    while !done
        invariant
            0 <= k <= s@.len(),
            it.remaining() == s@.skip(k),
            done == scan(s@.take(k)).done,
            scan(s@.take(k)).err is None,
            scan(s@.take(k)).depth == stack.len(),
            scan(s@.take(k)).branch == branch,
            scan(s@.take(k)).buf == buf@,
            nodes.len() == 1 + scan(s@.take(k)).closed + stack.len(),
            nodes.len() <= 1 + k,
            n == s@.len(),
            s@.len() > 0 && s@.last() == ';',
            curr < nodes.len(),
            forall|j: int| 0 <= j < stack.len() ==> #[trigger] stack[j] < nodes.len(),
            arena_view(nodes@) == scan(s@.take(k)).tree,
            stack_view(stack@) == scan(s@.take(k)).stack,
            curr as nat == scan(s@.take(k)).curr,
            arena_wf(nodes@),
            forall|i: int| 0 <= i < nodes.len() ==> (#[trigger] nodes[i]).sequence is None,
            fields_ok(nodes@),
        ensures
            0 <= k <= s@.len(),
            scan(s@.take(k)).done,
            scan(s@.take(k)).err is None,
            scan(s@.take(k)).depth == stack.len(),
            nodes.len() == 1 + scan(s@.take(k)).closed + stack.len(),
            arena_wf(nodes@),
            forall|i: int| 0 <= i < nodes.len() ==> (#[trigger] nodes[i]).sequence is None,
            fields_ok(nodes@),
            arena_view(nodes@) == scan(s@.take(k)).tree,
        decreases s@.len() - k,
    {
        let next = it.next();
        match next {
            None => {
                proof {
                    assert(s@.skip(k).len() == 0);
                    assert(s@.take(k) =~= s@);
                    let prev = scan(s@.drop_last());
                    if !(prev.err is Some || prev.done) {
                        assert(scan(s@) == scan_step(prev, ';'));
                    }
                    assert(scan(s@).err is Some || scan(s@).done);
                }
                break;
            },
            Some(c) => {
                assert(s@.take(k + 1).drop_last() =~= s@.take(k));
                assert(c == s@[k]);
                assert(s@.skip(k).drop_first() =~= s@.skip(k + 1));
                proof {
                    k = k + 1;
                }
                assert(s@.take(k).last() == c);
                let ghost tree0 = arena_view(nodes@);
                let ghost stack0 = stack@;
                let ghost curr0 = curr;
                if c == '(' {
                    stack.push(curr);
                    nodes.push(empty_node(Some(curr)));
                    curr = nodes.len() - 1;
                    assert(arena_view(nodes@) =~= tree0.push(fresh(Some(curr0 as nat))));
                    assert(stack_view(stack@) =~= stack_view(stack0).push(curr0 as nat));
                } else if c == ',' || c == ')' {
                    if stack.len() == 0 {
                        proof { lemma_scan_stops(s@, k); }
                        return Err(ParseError::NoEnclosingGroup);
                    }
                    if !consume(&mut nodes, curr, branch, &buf) {
                        proof { lemma_scan_stops(s@, k); }
                        return Err(ParseError::BadBranchLength);
                    }
                    buf = Vec::new();
                    branch = false;
                    let ghost tree1 = arena_view(nodes@);
                    if c == ',' {
                        let top = stack[stack.len() - 1];
                        nodes.push(empty_node(Some(top)));
                        curr = nodes.len() - 1;
                        assert(stack_view(stack@).last() == top as nat);
                        assert(arena_view(nodes@) =~= tree1.push(fresh(Some(top as nat))));
                    } else {
                        assert(stack_view(stack@).last() == stack@.last() as nat);
                        curr = stack.pop().unwrap();
                        assert(stack_view(stack@) =~= stack_view(stack0).drop_last());
                    }
                } else if c == ':' {
                    if !consume(&mut nodes, curr, branch, &buf) {
                        proof { lemma_scan_stops(s@, k); }
                        return Err(ParseError::BadBranchLength);
                    }
                    buf = Vec::new();
                    branch = true;
                } else if c == ';' {
                    if !consume(&mut nodes, curr, branch, &buf) {
                        proof { lemma_scan_stops(s@, k); }
                        return Err(ParseError::BadBranchLength);
                    }
                    buf = Vec::new();
                    done = true;
                } else {
                    buf.push(c);
                }
            },
        }
    }
    proof {
        lemma_scan_stops(s@, k);
    }
    if stack.len() != 0 {
        return Err(ParseError::Unbalanced);
    }
    Ok(nodes)
}

/// The ids of the tips among the first `n` nodes, in node order.
pub open spec fn tip_ids(nodes: Seq<NNode>, n: int) -> Seq<Seq<char>>
    decreases n,
{
    if n <= 0 {
        Seq::empty()
    } else if is_tip(nodes, n - 1) {
        tip_ids(nodes, n - 1).push(nodes[n - 1].id->0@)
    } else {
        tip_ids(nodes, n - 1)
    }
}

/// The indices of the tips among the first `n` nodes, in node order.
pub open spec fn tips(nodes: Seq<NNode>, n: int) -> Seq<int>
    decreases n,
{
    if n <= 0 {
        Seq::empty()
    } else if is_tip(nodes, n - 1) {
        tips(nodes, n - 1).push(n - 1)
    } else {
        tips(nodes, n - 1)
    }
}

proof fn lemma_tips_below(nodes: Seq<NNode>, n: int)
    ensures
        tips(nodes, n).len() == tip_ids(nodes, n).len(),
        forall|q: int| 0 <= q < tips(nodes, n).len() ==> 0 <= #[trigger] tips(nodes, n)[q] < n
            && is_tip(nodes, tips(nodes, n)[q]),
    decreases n,
{
    if n > 0 {
        lemma_tips_below(nodes, n - 1);
    }
}

/// Some tip has no id.
pub open spec fn unnamed_tip(nodes: Seq<NNode>) -> bool {
    exists|i: int| 0 <= i < nodes.len() && is_tip(nodes, i) && (#[trigger] nodes[i]).id is None
}

/// The ids of a list of entries.
pub open spec fn keys(h: Seq<(String, Sequence)>) -> Seq<Seq<char>> {
    h.map_values(|e: (String, Sequence)| e.0@)
}

/// What evolution promises of a node's sequence: the root's length, and
/// symbols that all belong to its table.
pub open spec fn evolved(s: Sequence, len: nat) -> bool {
    &&& s.symbols().len() == len
    &&& over_table(s.symbols(), s.table())
}

/// The entries of an evolution of `nodes`: one per tip, in node (pre-)order,
/// under the tip's id, each sequence `evolved` from the root's.
pub open spec fn evolve_result(nodes: Seq<NNode>, h: Seq<(String, Sequence)>) -> bool {
    &&& keys(h) == tip_ids(nodes, nodes.len() as int)
    &&& forall|q: int| 0 <= q < h.len() ==> evolved(#[trigger] h[q].1, nodes[0].sequence->0.symbols().len())
}

/// Evolution reaches every tip: when the root's sequence has `p` symbols (the
/// partition length that `create_ancestral` draws), the result of `dfs_evolve`
/// has exactly one entry per tip, and every entry has `p` symbols.
pub proof fn lemma_evolve_complete(nodes: Seq<NNode>, h: Seq<(String, Sequence)>, p: nat)
    requires
        evolve_result(nodes, h),
        nodes[0].sequence->0.symbols().len() == p,
    ensures
        h.len() == tip_ids(nodes, nodes.len() as int).len(),
        forall|q: int| 0 <= q < h.len() ==> (#[trigger] h[q]).1.symbols().len() == p,
{
    assert(keys(h).len() == h.len());
    assert forall|q: int| 0 <= q < h.len() implies (#[trigger] h[q]).1.symbols().len() == p by {
        assert(evolved(h[q].1, nodes[0].sequence->0.symbols().len()));
    }
}

/// Gives node `i` the mutation by `m` of its parent `p`'s sequence along
/// its branch (text `"0"` when it has no branch length).
fn mutate_node<M: Mutator>(nodes: &mut Vec<NNode>, i: usize, p: usize, m: &M) -> (r: Result<(), EvolveError>)
    requires
        p < i < old(nodes).len(),
        old(nodes)[p as int].sequence is Some,
    ensures
        final(nodes).len() == old(nodes).len(),
        forall|k: int| 0 <= k < old(nodes).len() && k != i ==> #[trigger] final(nodes)[k] == old(nodes)[k],
        final(nodes)[i as int].parent == old(nodes)[i as int].parent,
        final(nodes)[i as int].id == old(nodes)[i as int].id,
        final(nodes)[i as int].branch_length == old(nodes)[i as int].branch_length,
        r is Ok ==> final(nodes)[i as int].sequence is Some && final(nodes)[i as int].sequence->0.wf()
            && final(nodes)[i as int].sequence->0.symbols().len() == old(nodes)[p as int].sequence->0.symbols().len()
            && over_table(final(nodes)[i as int].sequence->0.symbols(), final(nodes)[i as int].sequence->0.table()),
        r is Err ==> r->Err_0 is UnknownBase && final(nodes)@ == old(nodes)@,
{
    let v: &str = match &nodes[i].branch_length {
        Some(b) => b.as_str(),
        None => "0",
    };
    let mutated = match &nodes[p].sequence {
        Some(ps) => m.mutate(ps, v),
        None => Err(EvolveError::UnknownBase(0)),
    };
    match mutated {
        Err(e) => Err(e),
        Ok(s) => {
            nodes[i].sequence = Some(s);
            Ok(())
        },
    }
}

/// The entry that records tip `c`: its id and a copy of its sequence.
fn tip_entry(c: &NNode) -> (r: (String, Sequence))
    requires
        c.id is Some,
        c.sequence is Some,
    ensures
        r.0@ == c.id->0@,
        r.1.symbols() == c.sequence->0.symbols(),
        r.1.table() == c.sequence->0.table(),
        r.1.wf() == c.sequence->0.wf(),
{
    let key = match &c.id {
        Some(id) => id.clone(),
        None => String::new(),
    };
    match &c.sequence {
        Some(s) => (key, s.clone()),
        None => (key, Sequence::from_vec(Vec::new(), &vec![(0u8, 1u64)])),
    }
}

/// For each node, whether some node names it as its parent.
fn child_flags(nodes: &Vec<NNode>) -> (r: Vec<bool>)
    requires
        arena_wf(nodes@),
    ensures
        r.len() == nodes.len(),
        forall|k: int| 0 <= k < nodes.len() ==> (#[trigger] r[k]) == !is_tip(nodes@, k),
{
    let n = nodes.len();
    let mut has_child: Vec<bool> = Vec::new();
    let mut i: usize = 0;
    while i < n
        invariant
            i <= n,
            has_child.len() == i,
            forall|k: int| 0 <= k < i ==> !(#[trigger] has_child[k]),
        decreases n - i,
    {
        has_child.push(false);
        i = i + 1;
    }
    let mut j: usize = 1;
    while j < n
        invariant
            n == nodes.len(),
            arena_wf(nodes@),
            1 <= j <= n,
            has_child.len() == n,
            forall|k: int| 0 <= k < n ==> (#[trigger] has_child[k]
                <==> exists|q: int| 1 <= q < j && (#[trigger] nodes@[q]).parent == Some(k as usize)),
        decreases n - j,
    {
        let p = match nodes[j].parent {
            Some(p) => p,
            None => 0,
        };
        assert(nodes@[j as int].parent == Some(p));
        has_child.set(p, true);
        j = j + 1;
    }
    assert forall|k: int| 0 <= k < n implies (#[trigger] has_child[k]) == !is_tip(nodes@, k) by {
        if has_child[k] {
            let q = choose|q: int| 1 <= q < n && (#[trigger] nodes@[q]).parent == Some(k as usize);
            assert(nodes@[q].parent == Some(k as usize));
        }
    }
    has_child
}

/// A tree for one partition: its Newick text until it is built, then its nodes.
pub struct NTree {
    nodes: Vec<NNode>,
    size: usize,
    partition: usize,
    build_str: String,
}

impl NTree {
    /// The nodes; empty until the tree is built.
    pub closed spec fn arena(&self) -> Seq<NNode> {
        self.nodes@
    }

    /// The Newick text still to be parsed.
    pub closed spec fn text(&self) -> Seq<char> {
        self.build_str@
    }

    /// The sequence length of this partition.
    pub closed spec fn partition_len(&self) -> nat {
        self.partition as nat
    }

    /// The node count matches the arena, which is a tree once built.
    pub closed spec fn wf(&self) -> bool {
        &&& self.size == self.nodes.len()
        &&& self.nodes.len() > 0 ==> arena_wf(self.nodes@)
        &&& forall|i: int| 0 <= i < self.nodes.len() && (#[trigger] self.nodes@[i]).sequence is Some
            ==> self.nodes@[i].sequence->0.wf()
    }

    /// An unbuilt tree for a partition of length `p` with Newick text `s`.
    pub fn new(p: usize, s: String) -> (r: NTree)
        ensures
            r.wf(),
            r.arena().len() == 0,
            r.text() == s@,
            r.partition_len() == p,
    {
        NTree { nodes: Vec::new(), size: 0, partition: p, build_str: s }
    }

    /// Parses the Newick text into the tree's nodes and clears the text.
    pub fn build_from_newick(&mut self) -> (r: Result<(), ParseError>)
        requires
            old(self).wf(),
        ensures
            final(self).wf(),
            final(self).partition_len() == old(self).partition_len(),
            old(self).arena().len() > 0 ==> r == Err::<(), ParseError>(ParseError::AlreadyBuilt) && *final(self) == *old(self),
            old(self).arena().len() == 0 ==> match parse_outcome(old(self).text()) {
                Ok(n) => r is Ok && final(self).arena().len() == n && final(self).text().len() == 0
                    && arena_view(final(self).arena()) == scan(old(self).text()).tree
                    && arena_wf(final(self).arena()) && fields_ok(final(self).arena())
                    && forall|i: int| 0 <= i < final(self).arena().len() ==> (#[trigger] final(self).arena()[i]).sequence is None,
                Err(e) => r == Err::<(), ParseError>(e) && *final(self) == *old(self),
            },
    {
        if self.nodes.len() > 0 {
            return Err(ParseError::AlreadyBuilt);
        }
        match parse_newick(self.build_str.as_str()) {
            Err(e) => Err(e),
            Ok(nodes) => {
                self.size = nodes.len();
                self.nodes = nodes;
                self.build_str = String::new();
                Ok(())
            },
        }
    }

    /// Draws the root's ancestral sequence, one symbol per site of the partition.
    pub fn create_ancestral<M: Mutator>(&mut self, m: &M) -> (r: Result<(), EvolveError>)
        requires
            old(self).wf(),
        ensures
            final(self).wf(),
            final(self).partition_len() == old(self).partition_len(),
            final(self).arena().len() == old(self).arena().len(),
            (r == Err::<(), EvolveError>(EvolveError::NoRoot)) == (old(self).arena().len() == 0),
            old(self).arena().len() > 0 ==> r is Ok,
            r is Err ==> *final(self) == *old(self),
            r is Ok ==> {
                let s = final(self).arena()[0].sequence;
                &&& s is Some
                &&& s->0.wf()
                &&& s->0.symbols().len() == old(self).partition_len()
                &&& over_table(s->0.symbols(), s->0.table())
            },
            forall|i: int| 0 <= i < old(self).arena().len() ==> (#[trigger] final(self).arena()[i]).parent == old(self).arena()[i].parent
                && final(self).arena()[i].id == old(self).arena()[i].id
                && final(self).arena()[i].branch_length == old(self).arena()[i].branch_length,
            forall|i: int| 0 < i < old(self).arena().len() ==> (#[trigger] final(self).arena()[i]).sequence == old(self).arena()[i].sequence,
    {
        if self.nodes.len() == 0 {
            return Err(EvolveError::NoRoot);
        }
        let s = m.random(self.partition);
        self.nodes[0].sequence = Some(s);
        Ok(())
    }

    /// Evolves the root's sequence down every branch, parents before
    /// children, and returns one `(id, sequence)` entry per tip, in pre-order.
    #[verifier::rlimit(100)]
    pub fn dfs_evolve<M: Mutator>(&mut self, m: &M) -> (r: Result<Vec<(String, Sequence)>, EvolveError>)
        requires
            old(self).wf(),
        ensures
            final(self).wf(),
            final(self).partition_len() == old(self).partition_len(),
            final(self).arena().len() == old(self).arena().len(),
            (r == Err::<Vec<(String, Sequence)>, EvolveError>(EvolveError::NoRoot)) == (old(self).arena().len() == 0),
            (r == Err::<Vec<(String, Sequence)>, EvolveError>(EvolveError::NoAncestral))
                == (old(self).arena().len() > 0 && old(self).arena()[0].sequence is None),
            (r == Err::<Vec<(String, Sequence)>, EvolveError>(EvolveError::UnnamedTip))
                == (old(self).arena().len() > 0 && old(self).arena()[0].sequence is Some && unnamed_tip(old(self).arena())),
            r is Err ==> r == Err::<Vec<(String, Sequence)>, EvolveError>(EvolveError::NoRoot)
                || r == Err::<Vec<(String, Sequence)>, EvolveError>(EvolveError::NoAncestral)
                || r == Err::<Vec<(String, Sequence)>, EvolveError>(EvolveError::UnnamedTip)
                || r->Err_0 is UnknownBase,
            old(self).arena().len() == 1 && old(self).arena()[0].sequence is Some && old(self).arena()[0].id is Some
                ==> r is Ok,
            r is Ok ==> evolve_result(old(self).arena(), r->Ok_0@),
            r is Ok ==> final(self).arena()[0].sequence == old(self).arena()[0].sequence,
            r is Ok ==> forall|k: int| 0 <= k < old(self).arena().len() ==> {
                &&& (#[trigger] final(self).arena()[k]).sequence is Some
                &&& final(self).arena()[k].sequence->0.wf()
                &&& evolved(final(self).arena()[k].sequence->0, old(self).arena()[0].sequence->0.symbols().len())
                &&& final(self).arena()[k].parent == old(self).arena()[k].parent
                &&& final(self).arena()[k].id == old(self).arena()[k].id
                &&& final(self).arena()[k].branch_length == old(self).arena()[k].branch_length
            },
            r is Ok ==> forall|q: int| 0 <= q < r->Ok_0.len() ==> {
                let c = final(self).arena()[tips(old(self).arena(), old(self).arena().len() as int)[q]];
                &&& (#[trigger] r->Ok_0[q]).1.symbols() == c.sequence->0.symbols()
                &&& r->Ok_0[q].1.table() == c.sequence->0.table()
            },
    {
        let n = self.nodes.len();
        if n == 0 {
            return Err(EvolveError::NoRoot);
        }
        if self.nodes[0].sequence.is_none() {
            return Err(EvolveError::NoAncestral);
        }
        let ghost nodes0 = self.nodes@;
        let has_child = child_flags(&self.nodes);
        let mut t: usize = 0;
        while t < n
            invariant
                n == self.nodes.len(),
                self.nodes@ == nodes0,
                nodes0 == old(self).nodes@,
                nodes0[0].sequence is Some,
                arena_wf(nodes0),
                self.size == n,
                self.partition == old(self).partition,
                self.wf(),
                t <= n,
                has_child.len() == n,
                forall|k: int| 0 <= k < n ==> (#[trigger] has_child[k]) == !is_tip(nodes0, k),
                forall|k: int| 0 <= k < t && is_tip(nodes0, k) ==> (#[trigger] nodes0[k]).id is Some,
            decreases n - t,
        {
            if !has_child[t] && self.nodes[t].id.is_none() {
                return Err(EvolveError::UnnamedTip);
            }
            t = t + 1;
        }
        let ghost len = nodes0[0].sequence->0.symbols().len();
        let mut h: Vec<(String, Sequence)> = Vec::new();
        assert(keys(h@) =~= Seq::<Seq<char>>::empty());
        let mut i: usize = 0;
        while i < n
            invariant
                n == self.nodes.len(),
                nodes0.len() == n,
                nodes0 == old(self).nodes@,
                arena_wf(nodes0),
                self.size == n,
                self.partition == old(self).partition,
                i <= n,
                has_child.len() == n,
                forall|k: int| 0 <= k < n ==> (#[trigger] has_child[k]) == !is_tip(nodes0, k),
                forall|k: int| 0 <= k < n && is_tip(nodes0, k) ==> (#[trigger] nodes0[k]).id is Some,
                len == nodes0[0].sequence->0.symbols().len(),
                forall|k: int| 0 <= k < n && (#[trigger] self.nodes@[k]).sequence is Some
                    ==> self.nodes@[k].sequence->0.wf(),
                nodes0[0].sequence is Some,
                forall|k: int| 0 <= k < n ==> (#[trigger] self.nodes@[k]).parent == nodes0[k].parent
                    && self.nodes@[k].id == nodes0[k].id
                    && self.nodes@[k].branch_length == nodes0[k].branch_length,
                forall|k: int| 0 <= k < i ==> (#[trigger] self.nodes@[k]).sequence is Some
                    && evolved(self.nodes@[k].sequence->0, len) && self.nodes@[k].sequence->0.wf(),
                h.len() == tips(nodes0, i as int).len(),
                forall|q: int| 0 <= q < h.len() ==> {
                    let c = self.nodes@[tips(nodes0, i as int)[q]];
                    &&& (#[trigger] h[q]).1.symbols() == c.sequence->0.symbols()
                    &&& h[q].1.table() == c.sequence->0.table()
                },
                self.nodes@[0].sequence == nodes0[0].sequence,
                keys(h@) == tip_ids(nodes0, i as int),
                forall|q: int| 0 <= q < h.len() ==> evolved(#[trigger] h[q].1, len),
            decreases n - i,
        {
            proof {
                lemma_tips_below(nodes0, i as int);
                lemma_tips_below(nodes0, i as int + 1);
                if i == 0 {
                    nodes0[0].sequence->0.lemma_wf_over();
                }
            }
            if i > 0 {
                let p = match self.nodes[i].parent {
                    Some(p) => p,
                    None => 0,
                };
                assert(nodes0[i as int].parent == Some(p));
                match mutate_node(&mut self.nodes, i, p, m) {
                    Err(e) => {
                        return Err(e);
                    },
                    Ok(()) => {},
                }
            }
            if !has_child[i] {
                let (key, val) = tip_entry(&self.nodes[i]);
                let ghost hb = h@;
                h.push((key, val));
                assert(keys(h@) =~= keys(hb).push(nodes0[i as int].id->0@));
            }
            i = i + 1;
        }
        Ok(h)
    }

    /// The nodes, root first, each parent before its children.
    pub fn nodes(&self) -> (r: &Vec<NNode>)
        ensures
            r@ == self.arena(),
    {
        &self.nodes
    }

    /// Number of nodes.
    pub fn get_size(&self) -> (r: usize)
        requires
            self.wf(),
        ensures
            r == self.arena().len(),
    {
        self.size
    }

    /// The partition length.
    pub fn get_partition(&self) -> (r: usize)
        ensures
            r == self.partition_len(),
    {
        self.partition
    }
}

} // verus!
