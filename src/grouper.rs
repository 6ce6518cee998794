//! The second pass: grouping logical lines into a tree of blocks by their
//! indentation.
use vstd::prelude::*;
use crate::chars::{chars_of, slice_chars, string_of};
use crate::error::ParseError;
use crate::scanner::LogicalLine;

verus! {

/// A logical line without its indentation, and the more deeply indented
/// lines that follow it.
#[derive(Debug)]
pub struct Block {
    pub filename: String,
    pub line_number: usize,
    pub text: String,
    pub subblocks: Vec<Block>,
}

/// What a block holds, as mathematical values.
pub struct BlockView {
    pub filename: Seq<char>,
    pub line_number: nat,
    pub text: Seq<char>,
    pub subblocks: Seq<BlockView>,
}

/// A logical line as mathematical values.
pub struct LineView {
    pub filename: Seq<char>,
    pub line_number: nat,
    pub text: Seq<char>,
}

/// The lines `v` as mathematical values.
pub open spec fn line_views(v: Seq<LogicalLine>) -> Seq<LineView> {
    v.map_values(|l: LogicalLine| LineView { filename: l.filename@, line_number: l.line_number as nat, text: l.text@ })
}

/// The blocks `v` as mathematical values.
pub open spec fn view_blocks(v: Seq<Block>) -> Seq<BlockView>
    decreases v,
{
    if v.len() == 0 {
        seq![]
    } else {
        let b = v[0];
        seq![BlockView {
            filename: b.filename@,
            line_number: b.line_number as nat,
            text: b.text@,
            subblocks: view_blocks(b.subblocks@),
        }] + view_blocks(v.subrange(1, v.len() as int))
    }
}

/// The index of the first character at or after `i` that is not a space.
pub open spec fn indent_end(s: Seq<char>, i: int) -> int
    decreases s.len() - i,
{
    if i < 0 || i >= s.len() || s[i] != ' ' {
        i
    } else {
        indent_end(s, i + 1)
    }
}

/// The number of leading spaces of `s`: its indentation depth.
pub open spec fn indent(s: Seq<char>) -> nat {
    indent_end(s, 0) as nat
}

/// The block that line `i` starts, with the given children.
pub open spec fn block_of(line: LineView, children: Seq<BlockView>) -> BlockView {
    BlockView {
        filename: line.filename,
        line_number: line.line_number,
        text: line.text.subrange(indent(line.text) as int, line.text.len() as int),
        subblocks: children,
    }
}

/// Groups the lines from `i` on into sibling blocks.
///
/// Lines no deeper than `above` end the group; `depth` is the depth of the
/// siblings seen so far. The result is the blocks and the index of the first
/// line not taken, or the index of a line whose depth differs from its
/// siblings'.
pub open spec fn group_from(
    lines: Seq<LineView>,
    i: int,
    above: Option<nat>,
    depth: Option<nat>,
) -> Result<(Seq<BlockView>, int), int>
    decreases lines.len() - i,
{
    if i < 0 || i >= lines.len() {
        Ok((seq![], i))
    } else {
        let d = indent(lines[i].text);
        if above matches Some(a) && d <= a {
            Ok((seq![], i))
        } else if depth matches Some(sd) && sd != d {
            Err(i)
        } else {
            match group_from(lines, i + 1, Some(d), None) {
                Err(e) => Err(e),
                Ok((children, j)) => {
                    if j <= i || j > lines.len() {
                        Err(i)
                    } else {
                        match group_from(lines, j, above, Some(d)) {
                            Err(e) => Err(e),
                            Ok((siblings, k)) => Ok((seq![block_of(lines[i], children)] + siblings, k)),
                        }
                    }
                }
            }
        }
    }
}

/// `blocks` followed by what `g` groups.
pub open spec fn prepend(blocks: Seq<BlockView>, g: Result<(Seq<BlockView>, int), int>) -> Result<(Seq<BlockView>, int), int> {
    match g {
        Ok((s, k)) => Ok((blocks + s, k)),
        Err(e) => Err(e),
    }
}

proof fn lemma_view_blocks_push(v: Seq<Block>, b: Block)
    ensures
        view_blocks(v.push(b)) == view_blocks(v) + view_blocks(seq![b]),
    decreases v.len(),
{
    assert(seq![b].subrange(1, 1) =~= Seq::<Block>::empty());
    if v.len() == 0 {
        assert(v.push(b) =~= seq![b]);
        assert(view_blocks(v) =~= Seq::<BlockView>::empty());
        assert(view_blocks(v) + view_blocks(seq![b]) =~= view_blocks(seq![b]));
    } else {
        let w = v.push(b);
        assert(w.subrange(1, w.len() as int) =~= v.subrange(1, v.len() as int).push(b));
        lemma_view_blocks_push(v.subrange(1, v.len() as int), b);
        assert(w[0] == v[0]);
        assert(view_blocks(w) =~= view_blocks(v) + view_blocks(seq![b]));
    }
}

fn indent_of(s: &[char]) -> (r: usize)
    ensures
        r == indent(s@),
        r <= s@.len(),
{
    let mut i: usize = 0;
    while i < s.len() && s[i] == ' '
        invariant
            i <= s@.len(),
            indent_end(s@, i as int) == indent_end(s@, 0),
        decreases s@.len() - i,
    {
        i = i + 1;
    }
    i
}

fn mismatch_error(line: &LogicalLine) -> (e: ParseError)
    ensures
        e.filename == line.filename,
        e.line_number == line.line_number,
        e.message@ == "indentation mismatch"@,
{
    let msg = chars_of("indentation mismatch");
    ParseError::new(line.filename.clone(), line.line_number, string_of(&msg), None, None)
}

fn group_core(lines: &Vec<LogicalLine>, start: usize, above: Option<usize>) -> (r: Result<(Vec<Block>, usize), ParseError>)
    requires
        start <= lines@.len(),
    ensures
        ({
            let above_n = match above { Some(a) => Some(a as nat), None => None };
            match group_from(line_views(lines@), start as int, above_n, None) {
                Ok((s, k)) => r matches Ok((v, k2)) && view_blocks(v@) == s && k2 == k
                    && start <= k2 <= lines@.len(),
                Err(e) => r matches Err(err) && 0 <= e < lines@.len()
                    && err.filename == lines@[e].filename
                    && err.line_number == lines@[e].line_number
                    && err.message@ == "indentation mismatch"@,
            }
        }),
    decreases lines@.len() - start,
{
    let ghost above_n = match above { Some(a) => Some(a as nat), None => None };
    let mut rv: Vec<Block> = Vec::new();
    let mut i: usize = start;
    let mut depth: Option<usize> = None;
    proof {
        assert(view_blocks(rv@) =~= Seq::<BlockView>::empty());
        match group_from(line_views(lines@), start as int, above_n, None) {
            Ok((s, k)) => { assert(Seq::<BlockView>::empty() + s =~= s); }
            Err(e) => {}
        }
    }
    while i < lines.len()
        invariant
            start <= i <= lines@.len(),
            group_from(line_views(lines@), start as int, above_n, None) == prepend(
                view_blocks(rv@),
                group_from(line_views(lines@), i as int, above_n, match depth { Some(d) => Some(d as nat), None => None }),
            ),
            above_n == match above { Some(a) => Some(a as nat), None => None },
        decreases lines@.len() - i,
    {
        let ghost depth_n = match depth { Some(d) => Some(d as nat), None => None };
        let line = &lines[i];
        let cs = chars_of(line.text.as_str());
        let d = indent_of(&cs);
        let stop = match above { Some(a) => d <= a, None => false };
        if stop {
            proof {
                assert(view_blocks(rv@) + Seq::<BlockView>::empty() =~= view_blocks(rv@));
            }
            return Ok((rv, i));
        }
        let differs = match depth { Some(sd) => sd != d, None => false };
        if differs {
            return Err(mismatch_error(line));
        }
        match group_core(lines, i + 1, Some(d)) {
            Err(e) => {
                return Err(e);
            },
            Ok((children, j)) => {
                let text = string_of(&slice_chars(&cs, d, cs.len()));
                let b = Block { filename: line.filename.clone(), line_number: line.line_number, text, subblocks: children };
                proof {
                    lemma_view_blocks_push(rv@, b);
                    assert(seq![b].subrange(1, 1) =~= Seq::<Block>::empty());
                    assert(seq![b][0] == b);
                    assert(b.text@ == lines@[i as int].text@.subrange(d as int, cs@.len() as int));
                    assert(view_blocks(seq![b].subrange(1, 1)) =~= Seq::<BlockView>::empty());
                    assert(view_blocks(seq![b]) =~= seq![block_of(line_views(lines@)[i as int], view_blocks(children@))]);
                    match group_from(line_views(lines@), j as int, above_n, Some(d as nat)) {
                        Ok((sib, k)) => {
                            assert(view_blocks(rv@) + (seq![block_of(line_views(lines@)[i as int], view_blocks(children@))] + sib)
                                =~= view_blocks(rv@.push(b)) + sib);
                        }
                        Err(e) => {}
                    }
                }
                rv.push(b);
                depth = Some(d);
                i = j;
            },
        }
    }
    proof {
        assert(view_blocks(rv@) + Seq::<BlockView>::empty() =~= view_blocks(rv@));
    }
    Ok((rv, i))
}

/// Groups logical lines into a tree of blocks by indentation.
///
/// The first line fixes the depth of the top-level blocks. A deeper line
/// becomes a child of the block before it; every line in a group of
/// siblings must have the same depth, or the result is an "indentation
/// mismatch" error on the first line that breaks this.
pub fn group_logical_lines(lines: Vec<LogicalLine>) -> (r: Result<Vec<Block>, ParseError>)
    ensures
        match group_from(line_views(lines@), 0, None, None) {
            Ok((s, _)) => r matches Ok(v) && view_blocks(v@) == s,
            Err(e) => r matches Err(err) && 0 <= e < lines@.len()
                && err.filename == lines@[e].filename
                && err.line_number == lines@[e].line_number
                && err.message@ == "indentation mismatch"@,
        },
{
    match group_core(&lines, 0, None) {
        Ok((v, _)) => Ok(v),
        Err(e) => Err(e),
    }
}

/// One block as mathematical values.
pub open spec fn view_block(b: Block) -> BlockView {
    BlockView {
        filename: b.filename@,
        line_number: b.line_number as nat,
        text: b.text@,
        subblocks: view_blocks(b.subblocks@),
    }
}

pub proof fn lemma_view_blocks_index(v: Seq<Block>, i: int)
    requires
        0 <= i < v.len(),
    ensures
        view_blocks(v).len() == v.len(),
        view_blocks(v)[i] == view_block(v[i]),
    decreases v.len(),
{
    lemma_view_blocks_len(v);
    if i > 0 {
        lemma_view_blocks_index(v.subrange(1, v.len() as int), i - 1);
    }
}

pub proof fn lemma_view_blocks_len(v: Seq<Block>)
    ensures
        view_blocks(v).len() == v.len(),
    decreases v.len(),
{
    if v.len() > 0 {
        lemma_view_blocks_len(v.subrange(1, v.len() as int));
    }
}

impl Block {
    /// A copy of the block, with copies of all its descendants.
    pub fn copy(&self) -> (r: Block)
        ensures
            view_block(r) == view_block(*self),
        decreases self,
    {
        Block {
            filename: self.filename.clone(),
            line_number: self.line_number,
            text: self.text.clone(),
            subblocks: copy_blocks(&self.subblocks),
        }
    }
}

/// A copy of the blocks, with copies of all their descendants.
pub fn copy_blocks(v: &Vec<Block>) -> (r: Vec<Block>)
    ensures
        view_blocks(r@) == view_blocks(v@),
    decreases v,
{
    let mut r: Vec<Block> = Vec::new();
    let mut i: usize = 0;
    proof {
        assert(r@ =~= v@.subrange(0, 0));
    }
    while i < v.len()
        invariant
            i <= v@.len(),
            view_blocks(r@) == view_blocks(v@.subrange(0, i as int)),
        decreases v@.len() - i,
    {
        proof {
            assert(decreases_to!(v => v@[i as int]));
        }
        let b = v[i].copy();
        proof {
            lemma_view_blocks_push(r@, b);
            lemma_view_blocks_push(v@.subrange(0, i as int), v@[i as int]);
            assert(v@.subrange(0, i as int).push(v@[i as int]) =~= v@.subrange(0, i + 1));
            assert(seq![b].subrange(1, 1) =~= Seq::<Block>::empty());
            assert(seq![v@[i as int]].subrange(1, 1) =~= Seq::<Block>::empty());
            assert(view_blocks(seq![b]) =~= view_blocks(seq![v@[i as int]]));
        }
        r.push(b);
        i = i + 1;
    }
    proof {
        assert(v@.subrange(0, v@.len() as int) =~= v@);
    }
    r
}

} // verus!
